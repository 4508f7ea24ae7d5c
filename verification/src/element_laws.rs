//! What becomes of single elements in Markdown.

use vstd::prelude::*;

use crate::dom::{
    alert_markdown, attribute_from, body_of, brush_from, cells_among, code_block, css_rule,
    descendant_from, descendant_of_class, framed, grouped_rows, has_class, is_span, is_struck,
    merged_below, quoted, quoted_line, raw_text, raw_text_upto, renders, rows_among, single_cell,
    strikes, style_upto, table_below, tree_html, Frame, HtmlAttr, HtmlNode, NodeContent, Rendering,
};
use crate::export_laws::{inks, lemma_inks_joined, lemma_inks_of_trimmed, lemma_inks_of_white};
use crate::reading::{letters, HtmlEvent};
use crate::table_laws::lemma_flat_push;
use crate::text::{
    is_white_space, lemma_index_from, lemma_skip_back, lines, lower, number, occurs_at, only,
    pieces, skip_back, trimmed, unicode_lower, white,
};
use crate::text_laws::lemma_inks_of_ink;
use crate::trees::{attribute_pairs, events_below, node_events};

verus! {

// ── Text ───────────────────────────────────────────────────────────

/// The text that a reader meets.
pub open spec fn text_read(e: Seq<HtmlEvent>) -> Seq<char>
    decreases e.len(),
{
    if e.len() == 0 {
        Seq::empty()
    } else {
        text_read(e.drop_last()) + match e.last() {
            HtmlEvent::Text(c) => c,
            _ => Seq::empty(),
        }
    }
}

proof fn lemma_text_joined(a: Seq<HtmlEvent>, b: Seq<HtmlEvent>)
    ensures
        text_read(a + b) == text_read(a) + text_read(b),
    decreases b.len(),
{
    if b.len() == 0 {
        assert(a + b =~= a);
        assert(text_read(a) + text_read(b) =~= text_read(a));
    } else {
        lemma_text_joined(a, b.drop_last());
        assert((a + b).drop_last() =~= a + b.drop_last());
        assert(text_read(a + b) =~= text_read(a) + text_read(b));
    }
}

proof fn lemma_text_one(e: HtmlEvent)
    ensures
        text_read(seq![e]) == match e {
            HtmlEvent::Text(c) => c,
            _ => Seq::empty(),
        },
{
    assert(seq![e].drop_last() =~= Seq::empty());
    assert(text_read(seq![e].drop_last()) =~= Seq::empty());
    assert(text_read(seq![e]) =~= match e {
        HtmlEvent::Text(c) => c,
        _ => Seq::empty(),
    });
}

proof fn lemma_text_letters(t: Seq<char>)
    ensures
        text_read(letters(t)) == t,
    decreases t.len(),
{
    if t.len() > 0 {
        let head = HtmlEvent::Text(seq![t[0]]);
        lemma_text_letters(t.drop_first());
        lemma_text_joined(seq![head], letters(t.drop_first()));
        lemma_text_one(head);
        assert(seq![t[0]] + t.drop_first() =~= t);
    } else {
        assert(text_read(letters(t)) =~= t);
    }
}

/// The raw text of a tree is the text that a reader meets in it: all of it, in
/// order, and nothing else.
pub proof fn law_raw_text_is_what_is_read<H>(node: HtmlNode<H>)
    ensures
        raw_text(node) == text_read(node_events(node)),
    decreases node, node.children@.len() + 1,
{
    let n = node.children@.len() as int;
    let below = events_below(node, n);
    lemma_text_below(node, n);
    match node.content {
        NodeContent::Element { tag, attrs } => {
            let open = HtmlEvent::Open(tag@, attribute_pairs(attrs@));
            let close = HtmlEvent::Close(tag@);
            lemma_text_joined(seq![open] + below, seq![close]);
            lemma_text_joined(seq![open], below);
            lemma_text_one(open);
            lemma_text_one(close);
            assert(Seq::<char>::empty() + text_read(below) + Seq::<char>::empty() =~= text_read(
                below,
            ));
        },
        NodeContent::Text(s) => {
            lemma_text_letters(s@);
        },
        NodeContent::Other => {},
    }
}

proof fn lemma_text_below<H>(node: HtmlNode<H>, n: int)
    requires
        n <= node.children@.len(),
    ensures
        raw_text_upto(node, n) == text_read(events_below(node, n)),
    decreases node, n,
{
    if n > 0 {
        lemma_text_below(node, n - 1);
        law_raw_text_is_what_is_read(node.children@[n - 1]);
        lemma_text_joined(events_below(node, n - 1), node_events(node.children@[n - 1]));
    }
}

// ── Alerts ─────────────────────────────────────────────────────────

proof fn lemma_quoted(body: Seq<Seq<char>>, n: int)
    requires
        0 <= n <= body.len(),
    ensures
        quoted(body, n) == Seq::new(
            n as nat,
            |k: int|
                if body[k].len() == 0 {
                    ">\n"@
                } else {
                    "> "@ + body[k] + "\n"@
                },
        ).flatten(),
    decreases n,
{
    let blocks = Seq::new(
        n as nat,
        |k: int|
            if body[k].len() == 0 {
                ">\n"@
            } else {
                "> "@ + body[k] + "\n"@
            },
    );
    lemma_flat_push(blocks);
    if n > 0 {
        lemma_quoted(body, n - 1);
        assert(blocks.drop_last() =~= Seq::new(
            (n - 1) as nat,
            |k: int|
                if body[k].len() == 0 {
                    ">\n"@
                } else {
                    "> "@ + body[k] + "\n"@
                },
        ));
        assert(blocks.last() == quoted_line(body[n - 1]));
    }
}

/// An alert is its kind and every line of its body, in order and behind the
/// mark of a quotation.
pub proof fn law_alert_quotes_every_line(kind: Seq<char>, body: Seq<char>)
    ensures
        alert_markdown(kind, body) == "\n\n> [!"@ + kind + "]\n"@ + Seq::new(
            lines(body).len(),
            |k: int|
                if lines(body)[k].len() == 0 {
                    ">\n"@
                } else {
                    "> "@ + lines(body)[k] + "\n"@
                },
        ).flatten() + "\n"@,
{
    lemma_quoted(lines(body), lines(body).len() as int);
}

// ── Frames ─────────────────────────────────────────────────────────

proof fn lemma_inks_of_three(a: Seq<char>, b: Seq<char>, c: Seq<char>)
    ensures
        inks(a + b + c) == inks(a) + inks(b) + inks(c),
{
    lemma_inks_joined(a + b, c);
    lemma_inks_joined(a, b);
}

proof fn lemma_inks_of_frame(t: Seq<char>, shown: Seq<char>, before: Seq<char>, after: Seq<char>)
    requires
        t == before + shown + after,
        forall|i: int| 0 <= i < before.len() ==> is_white_space(#[trigger] before[i]),
        forall|i: int| 0 <= i < after.len() ==> is_white_space(#[trigger] after[i]),
        forall|i: int| 0 <= i < shown.len() ==> !is_white_space(#[trigger] shown[i]),
    ensures
        inks(t) == shown,
{
    lemma_inks_of_three(before, shown, after);
    lemma_inks_of_white(before);
    lemma_inks_of_white(after);
    lemma_inks_of_ink(shown);
    assert(Seq::<char>::empty() + shown + Seq::<char>::empty() =~= shown);
}

proof fn lemma_frame_marks()
    ensures
        inks("\n\n<details>\n"@) == "<details>"@,
        inks("\n</details>\n\n"@) == "</details>"@,
        inks("<summary>"@) == "<summary>"@,
        inks("</summary>\n\n"@) == "</summary>"@,
        inks("\n\n"@) == Seq::<char>::empty(),
        inks("\n\n<details>\n<summary>"@) == "<details><summary>"@,
        inks("~~"@) == "~~"@,
{
    reveal_strlit("\n\n<details>\n");
    reveal_strlit("\n</details>\n\n");
    reveal_strlit("<summary>");
    reveal_strlit("</summary>\n\n");
    reveal_strlit("\n\n");
    reveal_strlit("\n");
    reveal_strlit("\n\n<details>\n<summary>");
    reveal_strlit("<details><summary>");
    reveal_strlit("<details>");
    reveal_strlit("</details>");
    reveal_strlit("</summary>");
    reveal_strlit("~~");
    let none = Seq::<char>::empty();
    assert("\n\n<details>\n"@ =~= "\n\n"@ + "<details>"@ + "\n"@);
    assert("\n</details>\n\n"@ =~= "\n"@ + "</details>"@ + "\n\n"@);
    assert("<summary>"@ =~= none + "<summary>"@ + none);
    assert("</summary>\n\n"@ =~= none + "</summary>"@ + "\n\n"@);
    assert("~~"@ =~= none + "~~"@ + none);
    assert("\n\n<details>\n<summary>"@ =~= "\n\n<details>\n"@ + "<summary>"@);
    lemma_inks_of_frame("\n\n<details>\n"@, "<details>"@, "\n\n"@, "\n"@);
    lemma_inks_of_frame("\n</details>\n\n"@, "</details>"@, "\n"@, "\n\n"@);
    lemma_inks_of_frame("<summary>"@, "<summary>"@, none, none);
    lemma_inks_of_frame("</summary>\n\n"@, "</summary>"@, none, "\n\n"@);
    lemma_inks_of_frame("~~"@, "~~"@, none, none);
    lemma_inks_of_white("\n\n"@);
    lemma_inks_joined("\n\n<details>\n"@, "<summary>"@);
    assert("<details>"@ + "<summary>"@ =~= "<details><summary>"@);
}

/// What is put around the Markdown of an element is its mark; but for white
/// space, the content itself stays as it is, and an element without a mark
/// stays altogether.
pub proof fn law_frame_keeps_its_content(content: Seq<char>, title: String)
    ensures
        framed(Frame::Plain, content) == content,
        framed(Frame::Struck, content) == "~~"@ + content + "~~"@,
        inks(framed(Frame::Details, content)) == "<details>"@ + inks(content) + "</details>"@,
        inks(framed(Frame::Summary, content)) == "<summary>"@ + inks(content) + "</summary>"@,
        inks(framed(Frame::Cell, content)) == inks(content),
        inks(framed(Frame::Expand(title), content)) == "<details><summary>"@ + inks(title@)
            + "</summary>"@ + inks(content) + "</details>"@,
{
    let inner = trimmed(content, white());
    let name = trimmed(title@, white());
    lemma_frame_marks();
    lemma_inks_of_trimmed(content);
    lemma_inks_of_trimmed(title@);
    lemma_inks_of_three("\n\n<details>\n"@, inner, "\n</details>\n\n"@);
    lemma_inks_of_three("<summary>"@, inner, "</summary>\n\n"@);
    lemma_inks_of_three("\n\n"@, inner, "\n\n"@);
    assert(Seq::<char>::empty() + inks(content) + Seq::<char>::empty() =~= inks(content));
    let head = "\n\n<details>\n<summary>"@ + name + "</summary>\n\n"@;
    lemma_inks_of_three("\n\n<details>\n<summary>"@, name, "</summary>\n\n"@);
    lemma_inks_of_three(head, inner, "\n</details>\n\n"@);
}

/// A code block holds its code as it is, but for the line feeds at its end.
pub proof fn law_code_block_holds_its_code(brush: Seq<char>, code: Seq<char>, feeds: Seq<char>)
    requires
        code.len() == 0 || code.last() != '\n',
        forall|i: int| 0 <= i < feeds.len() ==> #[trigger] feeds[i] == '\n',
    ensures
        code_block(brush, code + feeds) == "\n\n```"@ + brush + "\n"@ + code + "\n```\n\n"@,
{
    let t = code + feeds;
    let n = t.len() as int;
    lemma_skip_back(t, only('\n'), n);
    let b = skip_back(t, only('\n'), n);
    if b > code.len() {
        assert(t[b - 1] == feeds[b - 1 - code.len()]);
    }
    if b < code.len() {
        assert(only('\n')(t[code.len() - 1]));
        assert(t[code.len() - 1] == code.last());
    }
    assert(t.subrange(0, b) =~= code);
}

// ── Rows and cells ─────────────────────────────────────────────────

proof fn lemma_rows_prefix<H>(a: Seq<HtmlNode<H>>, b: Seq<HtmlNode<H>>, n: int)
    requires
        n <= a.len(),
    ensures
        rows_among(a + b, n) == rows_among(a, n),
    decreases n,
{
    if n > 0 {
        lemma_rows_prefix(a, b, n - 1);
        assert((a + b)[n - 1] == a[n - 1]);
    }
}

proof fn lemma_rows_joined<H>(a: Seq<HtmlNode<H>>, b: Seq<HtmlNode<H>>, n: int)
    requires
        0 <= n <= b.len(),
    ensures
        rows_among(a + b, a.len() + n) == rows_among(a, a.len() as int) + rows_among(b, n),
    decreases n,
{
    if n == 0 {
        lemma_rows_prefix(a, b, a.len() as int);
        assert(rows_among(a, a.len() as int) + rows_among(b, 0) =~= rows_among(a, a.len() as int));
    } else {
        lemma_rows_joined(a, b, n - 1);
        assert((a + b)[a.len() + n - 1] == b[n - 1]);
        assert(rows_among(a + b, a.len() + n) =~= rows_among(a, a.len() as int) + rows_among(b, n));
    }
}

/// The rows among nodes are listed in their order, and nothing else is.
pub proof fn law_rows_are_listed_in_order<H>(
    a: Seq<HtmlNode<H>>,
    x: HtmlNode<H>,
    b: Seq<HtmlNode<H>>,
)
    ensures
        rows_among(a + seq![x] + b, a.len() + 1int + b.len()) == rows_among(a, a.len() as int) + (
        if x.is_element("tr"@) {
            seq![x]
        } else {
            Seq::empty()
        }) + rows_among(b, b.len() as int),
{
    let one = seq![x];
    lemma_rows_joined(a + one, b, b.len() as int);
    lemma_rows_joined(a, one, 1);
    reveal_with_fuel(rows_among, 2);
    assert(rows_among(one, 1) =~= if x.is_element("tr"@) {
            seq![x]
        } else {
            Seq::empty()
        });
}

proof fn lemma_cells_prefix<H>(a: Seq<HtmlNode<H>>, b: Seq<HtmlNode<H>>, n: int)
    requires
        n <= a.len(),
    ensures
        cells_among(a + b, n) == cells_among(a, n),
    decreases n,
{
    if n > 0 {
        lemma_cells_prefix(a, b, n - 1);
        assert((a + b)[n - 1] == a[n - 1]);
    }
}

proof fn lemma_cells_joined<H>(a: Seq<HtmlNode<H>>, b: Seq<HtmlNode<H>>, n: int)
    requires
        0 <= n <= b.len(),
    ensures
        cells_among(a + b, a.len() + n) == cells_among(a, a.len() as int) + cells_among(b, n),
    decreases n,
{
    if n == 0 {
        lemma_cells_prefix(a, b, a.len() as int);
        assert(cells_among(a, a.len() as int) + cells_among(b, 0) =~= cells_among(a, a.len() as int));
    } else {
        lemma_cells_joined(a, b, n - 1);
        assert((a + b)[a.len() + n - 1] == b[n - 1]);
        assert(cells_among(a + b, a.len() + n) =~= cells_among(a, a.len() as int) + cells_among(b, n));
    }
}

/// The cells among nodes are listed in their order, and nothing else is.
pub proof fn law_cells_are_listed_in_order<H>(
    a: Seq<HtmlNode<H>>,
    x: HtmlNode<H>,
    b: Seq<HtmlNode<H>>,
)
    ensures
        cells_among(a + seq![x] + b, a.len() + 1int + b.len()) == cells_among(a, a.len() as int) + (
        if x.is_element("td"@) || x.is_element("th"@) {
            seq![x]
        } else {
            Seq::empty()
        }) + cells_among(b, b.len() as int),
{
    let one = seq![x];
    lemma_cells_joined(a + one, b, b.len() as int);
    lemma_cells_joined(a, one, 1);
    reveal_with_fuel(cells_among, 2);
    assert(cells_among(one, 1) =~= if x.is_element("td"@) || x.is_element("th"@) {
            seq![x]
        } else {
            Seq::empty()
        });
}

proof fn lemma_table_rows_prefix<H>(a: Seq<HtmlNode<H>>, b: Seq<HtmlNode<H>>, n: int)
    requires
        n <= a.len(),
    ensures
        grouped_rows(a + b, n) == grouped_rows(a, n),
    decreases n,
{
    if n > 0 {
        lemma_table_rows_prefix(a, b, n - 1);
        assert((a + b)[n - 1] == a[n - 1]);
    }
}

proof fn lemma_table_rows_joined<H>(a: Seq<HtmlNode<H>>, b: Seq<HtmlNode<H>>, n: int)
    requires
        0 <= n <= b.len(),
    ensures
        grouped_rows(a + b, a.len() + n) == grouped_rows(a, a.len() as int) + grouped_rows(b, n),
    decreases n,
{
    if n == 0 {
        lemma_table_rows_prefix(a, b, a.len() as int);
        assert(grouped_rows(a, a.len() as int) + grouped_rows(b, 0) =~= grouped_rows(a, a.len() as int));
    } else {
        lemma_table_rows_joined(a, b, n - 1);
        assert((a + b)[a.len() + n - 1] == b[n - 1]);
        assert(grouped_rows(a + b, a.len() + n) =~= grouped_rows(a, a.len() as int) + grouped_rows(b, n));
    }
}

/// The rows of a table are listed in their order: those that stand in it, and
/// those in its head, its bodies and its foot.
pub proof fn law_table_rows_are_listed_in_order<H>(
    a: Seq<HtmlNode<H>>,
    x: HtmlNode<H>,
    b: Seq<HtmlNode<H>>,
)
    ensures
        grouped_rows(a + seq![x] + b, a.len() + 1int + b.len()) == grouped_rows(a, a.len() as int) + (
        if x.is_element("tr"@) {
            seq![x]
        } else if x.is_element("thead"@) || x.is_element("tbody"@) || x.is_element("tfoot"@) {
            rows_among(x.children@, x.children@.len() as int)
        } else {
            Seq::empty()
        }) + grouped_rows(b, b.len() as int),
{
    let one = seq![x];
    lemma_table_rows_joined(a + one, b, b.len() as int);
    lemma_table_rows_joined(a, one, 1);
    reveal_with_fuel(grouped_rows, 2);
    assert(grouped_rows(one, 1) =~= if x.is_element("tr"@) {
            seq![x]
        } else if x.is_element("thead"@) || x.is_element("tbody"@) || x.is_element("tfoot"@) {
            rows_among(x.children@, x.children@.len() as int)
        } else {
            Seq::empty()
        });
}

/// The only cell of a table is found where the table has one row with one
/// cell, and nowhere else.
pub proof fn law_single_cell_is_the_only_one<H>(node: HtmlNode<H>)
    ensures
        single_cell(node) matches Some(cell) ==> {
            let rows = grouped_rows(node.children@, node.children@.len() as int);
            rows.len() == 1 && cells_among(
                rows[0].children@,
                rows[0].children@.len() as int,
            ) == seq![cell]
        },
        single_cell(node) is None ==> {
            let rows = grouped_rows(node.children@, node.children@.len() as int);
            rows.len() == 1 ==> cells_among(
                rows[0].children@,
                rows[0].children@.len() as int,
            ).len() != 1
        },
{
    let rows = grouped_rows(node.children@, node.children@.len() as int);
    if let Some(cell) = single_cell(node) {
        assert(cells_among(rows[0].children@, rows[0].children@.len() as int) =~= seq![cell]);
    }
}

// ── Searching and styles ───────────────────────────────────────────

/// Whether a node is another or stands below it.
pub open spec fn is_in<H>(node: HtmlNode<H>, x: HtmlNode<H>) -> bool
    decreases node,
{
    node == x || exists|i: int| 0 <= i < node.children@.len() && is_in(#[trigger] node.children@[i], x)
}

proof fn lemma_descendant_found<H>(node: HtmlNode<H>, class: Seq<char>, i: int)
    requires
        0 <= i,
        descendant_from(node, class, i) is Some,
    ensures
        has_class(descendant_from(node, class, i)->0, class),
        exists|k: int|
            0 <= k < node.children@.len() && is_in(
                #[trigger] node.children@[k],
                descendant_from(node, class, i)->0,
            ),
    decreases node, node.children@.len() - i,
{
    let child = node.children@[i];
    if has_class(child, class) {
        assert(is_in(node.children@[i], child));
    } else if descendant_of_class(child, class) is Some {
        lemma_descendant_found(child, class, 0);
        assert(is_in(node.children@[i], descendant_from(child, class, 0)->0));
    } else {
        lemma_descendant_found(node, class, i + 1);
    }
}

proof fn lemma_descendant_missing<H>(
    node: HtmlNode<H>,
    class: Seq<char>,
    i: int,
    k: int,
    x: HtmlNode<H>,
)
    requires
        0 <= i <= k < node.children@.len(),
        descendant_from(node, class, i) is None,
        is_in(node.children@[k], x),
    ensures
        !has_class(x, class),
    decreases node, node.children@.len() - i,
{
    let child = node.children@[i];
    if i < k {
        lemma_descendant_missing(node, class, i + 1, k, x);
    } else if child != x {
        assert(descendant_of_class(child, class) is None);
        assert(descendant_of_class(child, class) == descendant_from(child, class, 0));
        let j = choose|j: int| 0 <= j < child.children@.len() && is_in(#[trigger] child.children@[j], x);
        lemma_descendant_missing(child, class, 0, j, x);
    }
}

/// A search below a node finds an element of the class there, and finds none
/// only where there is none.
pub proof fn law_search_finds_the_class<H>(node: HtmlNode<H>, class: Seq<char>)
    ensures
        match descendant_of_class(node, class) {
            Some(x) => has_class(x, class) && exists|k: int|
                0 <= k < node.children@.len() && is_in(#[trigger] node.children@[k], x),
            None => forall|k: int, x: HtmlNode<H>|
                0 <= k < node.children@.len() && #[trigger] is_in(node.children@[k], x)
                    ==> !has_class(x, class),
        },
{
    if descendant_of_class(node, class) is Some {
        lemma_descendant_found(node, class, 0);
    } else {
        assert forall|k: int, x: HtmlNode<H>|
            0 <= k < node.children@.len() && #[trigger] is_in(
                node.children@[k],
                x,
            ) implies !has_class(x, class) by {
            lemma_descendant_missing(node, class, 0, k, x);
        }
    }
}

/// Whether a rule sets a property.
pub open spec fn sets_property(rule: Seq<char>, property: Seq<char>) -> bool {
    css_rule(trimmed(rule, white())) matches Some((k, v)) && unicode_lower(k) == property
}

/// The value of a property is that of the last rule that sets it, in lower
/// case.
pub proof fn law_last_rule_counts(rules: Seq<Seq<char>>, n: int, k: int, property: Seq<char>)
    requires
        0 <= k < n <= rules.len(),
        sets_property(rules[k], property),
        forall|j: int| k < j < n ==> !sets_property(#[trigger] rules[j], property),
    ensures
        style_upto(rules, n).contains_key(property),
        css_rule(trimmed(rules[k], white())) matches Some((name, value)) && style_upto(
            rules,
            n,
        )[property] == unicode_lower(value),
    decreases n,
{
    if k < n - 1 {
        law_last_rule_counts(rules, n - 1, k, property);
        assert(!sets_property(rules[n - 1], property));
    }
}

proof fn lemma_first_descendant<H>(node: HtmlNode<H>, class: Seq<char>, i: int, k: int)
    requires
        0 <= i <= k < node.children@.len(),
        has_class(node.children@[k], class) || descendant_of_class(node.children@[k], class) is Some,
        forall|j: int|
            i <= j < k ==> !has_class(#[trigger] node.children@[j], class) && descendant_of_class(
                node.children@[j],
                class,
            ) is None,
    ensures
        descendant_from(node, class, i) == if has_class(node.children@[k], class) {
            Some(node.children@[k])
        } else {
            descendant_of_class(node.children@[k], class)
        },
    decreases k - i,
{
    if i < k {
        lemma_first_descendant(node, class, i + 1, k);
    }
}

/// A search below a node goes through its children in order, and takes a child
/// of the class before anything below it.
pub proof fn law_search_finds_the_first<H>(node: HtmlNode<H>, class: Seq<char>, k: int)
    requires
        0 <= k < node.children@.len(),
        forall|j: int, x: HtmlNode<H>|
            0 <= j < k && #[trigger] is_in(node.children@[j], x) ==> !has_class(x, class),
    ensures
        has_class(node.children@[k], class) ==> descendant_of_class(node, class) == Some(
            node.children@[k],
        ),
        !has_class(node.children@[k], class) && descendant_of_class(node.children@[k], class) is Some
            ==> descendant_of_class(node, class) == descendant_of_class(node.children@[k], class),
{
    assert forall|j: int| 0 <= j < k implies !has_class(#[trigger] node.children@[j], class)
        && descendant_of_class(node.children@[j], class) is None by {
        let child = node.children@[j];
        assert(is_in(node.children@[j], child));
        law_search_finds_the_class(child, class);
        if let Some(x) = descendant_of_class(child, class) {
            let i = choose|i: int|
                0 <= i < child.children@.len() && is_in(#[trigger] child.children@[i], x);
            assert(is_in(child.children@[i], x));
            assert(is_in(node.children@[j], x));
        }
    }
    if has_class(node.children@[k], class) || descendant_of_class(
        node.children@[k],
        class,
    ) is Some {
        lemma_first_descendant(node, class, 0, k);
    }
}

/// An attribute that is written more than once has the value that is written
/// first.
pub proof fn law_first_attribute_counts(attrs: Seq<HtmlAttr>, name: Seq<char>, i: int, k: int)
    requires
        0 <= i <= k < attrs.len(),
        attrs[k].name@ == name,
        forall|j: int| i <= j < k ==> (#[trigger] attrs[j]).name@ != name,
    ensures
        attribute_from(attrs, name, i) == Some(attrs[k].value@),
    decreases k - i,
{
    if i < k {
        assert(attrs[i].name@ != name);
        law_first_attribute_counts(attrs, name, i + 1, k);
    }
}

/// A table has merged cells where any element of it spans more than one row or
/// column, however deep it stands.
pub proof fn law_merged_cell_is_found<H>(node: HtmlNode<H>, x: HtmlNode<H>, k: int, span: nat)
    requires
        is_in(node, x),
        0 <= k < x.attributes().len(),
        x.attributes()[k].name@ == "colspan"@ || x.attributes()[k].name@ == "rowspan"@,
        number(trimmed(x.attributes()[k].value@, white()), 10) == Some(span),
        span > 1,
    ensures
        merged_below(node),
    decreases node,
{
    if node == x {
        assert(is_span(node.attributes()[k]));
    } else {
        let i = choose|i: int|
            0 <= i < node.children@.len() && is_in(#[trigger] node.children@[i], x);
        law_merged_cell_is_found(node.children@[i], x, k, span);
        assert(merged_below(node.children@[i]));
    }
}

/// A table holds another where any element below it is one, however deep it
/// stands, and the table itself does not count.
pub proof fn law_nested_table_is_found<H>(node: HtmlNode<H>)
    ensures
        table_below(node) <==> exists|i: int, x: HtmlNode<H>|
            0 <= i < node.children@.len() && #[trigger] is_in(node.children@[i], x)
                && x.is_element("table"@),
    decreases node,
{
    if table_below(node) {
        let i = choose|i: int|
            0 <= i < node.children@.len() && ((#[trigger] node.children@[i]).is_element("table"@)
                || table_below(node.children@[i]));
        let child = node.children@[i];
        if child.is_element("table"@) {
            assert(is_in(node.children@[i], child));
        } else {
            law_nested_table_is_found(child);
            let (j, x) = choose|j: int, x: HtmlNode<H>|
                0 <= j < child.children@.len() && #[trigger] is_in(child.children@[j], x)
                    && x.is_element("table"@);
            assert(is_in(child.children@[j], x));
            assert(is_in(node.children@[i], x));
        }
    }
    if exists|i: int, x: HtmlNode<H>|
        0 <= i < node.children@.len() && #[trigger] is_in(node.children@[i], x) && x.is_element(
            "table"@,
        ) {
        let (i, x) = choose|i: int, x: HtmlNode<H>|
            0 <= i < node.children@.len() && #[trigger] is_in(node.children@[i], x)
                && x.is_element("table"@);
        let child = node.children@[i];
        if child != x {
            law_nested_table_is_found(child);
            let j = choose|j: int|
                0 <= j < child.children@.len() && is_in(#[trigger] child.children@[j], x);
            assert(is_in(child.children@[j], x));
            assert(table_below(child));
        }
        assert(table_below(node));
    }
}

/// A rule is told at its first colon: the property stands in front of it, and
/// the value behind it, without white space around them.
pub proof fn law_rule_is_told_at_its_colon(property: Seq<char>, value: Seq<char>)
    requires
        !property.contains(':'),
    ensures
        css_rule(property + ":"@ + value) == Some(
            (trimmed(property, white()), trimmed(value, white())),
        ),
        css_rule(property) is None,
{
    reveal_strlit(":");
    let t = property + ":"@ + value;
    let n = property.len() as int;
    assert(t.subrange(n, n + 1) =~= ":"@);
    assert(occurs_at(t, ":"@, n));
    assert forall|j: int| 0 <= j < n implies !occurs_at(t, ":"@, j) by {
        assert(t.subrange(j, j + 1)[0] == property[j]);
        assert(property.contains(property[j]));
    }
    assert forall|j: int| 0 <= j implies !occurs_at(property, ":"@, j) by {
        if occurs_at(property, ":"@, j) {
            assert(property.subrange(j, j + 1)[0] == property[j]);
            assert(property.contains(property[j]));
        }
    }
    lemma_index_from(t, ":"@, 0);
    lemma_index_from(property, ":"@, 0);
    assert(t.take(n) =~= property);
    assert(t.skip(n + 1) =~= value);
}

/// The brush is that of the first parameter of that name, in whatever case; a
/// parameter without a value ends the search.
pub proof fn law_first_brush_counts(params: Seq<Seq<char>>, i: int, k: int)
    requires
        0 <= i <= k < params.len(),
        forall|j: int|
            i <= j < k ==> (css_rule(#[trigger] params[j]) matches Some((name, value)) && lower(
                name,
            ) != "brush"@),
    ensures
        match css_rule(params[k]) {
            Some((name, value)) => lower(name) == "brush"@ ==> brush_from(params, i) == Some(value),
            None => brush_from(params, i) is None,
        },
    decreases k - i,
{
    if i < k {
        assert(css_rule(params[i]) matches Some((name, value)) && lower(name) != "brush"@);
        law_first_brush_counts(params, i + 1, k);
    }
}

/// Text is struck through where the last rule on its decoration says so.
pub proof fn law_struck_by_the_last_rule(style: Seq<char>, k: int)
    requires
        0 <= k < pieces(style, ';').len(),
        sets_property(pieces(style, ';')[k], "text-decoration"@),
        forall|j: int|
            k < j < pieces(style, ';').len() ==> !sets_property(
                #[trigger] pieces(style, ';')[j],
                "text-decoration"@,
            ),
    ensures
        css_rule(trimmed(pieces(style, ';')[k], white())) matches Some((name, value)) && strikes(
            style,
        ) == (unicode_lower(value) == "line-through"@),
{
    let rules = pieces(style, ';');
    law_last_rule_counts(rules, rules.len() as int, k, "text-decoration"@);
}

// ── Rendering ──────────────────────────────────────────────────────

/// What an element shows in Markdown is its own: the content comes from the
/// element or from one inside it. Style sheets and scripts show nothing, and
/// only for a table it matters whether merged cells are to be kept.
pub proof fn law_elements_show_their_content<H>(
    node: HtmlNode<H>,
    preserve_merged: bool,
    r: Rendering<'_, H>,
)
    requires
        renders(node, preserve_merged, r),
        !node.is_element("table"@),
    ensures
        renders(node, !preserve_merged, r),
        r matches Rendering::Inner(body, frame) ==> is_in(node, *body),
        node.is_element("style"@) || node.is_element("script"@) ==> (r matches Rendering::Fixed(s)
            && s@.len() == 0),
{
    lemma_other_names();
    if node.is_element("div"@) {
        lemma_body_is_in(node, "expand-content"@);
        lemma_body_is_in(node, "confluence-information-macro-body"@);
    }
}

proof fn lemma_body_is_in<H>(node: HtmlNode<H>, class: Seq<char>)
    ensures
        is_in(node, body_of(node, class)),
{
    law_search_finds_the_class(node, class);
    if let Some(x) = descendant_of_class(node, class) {
        let k = choose|k: int|
            0 <= k < node.children@.len() && is_in(#[trigger] node.children@[k], x);
        assert(is_in(node.children@[k], x));
    }
}

proof fn lemma_other_names()
    ensures
        "div"@ != "style"@,
        "div"@ != "script"@,
        "pre"@ != "style"@,
        "pre"@ != "script"@,
        "details"@ != "div"@,
        "details"@ != "style"@,
        "details"@ != "script"@,
        "details"@ != "pre"@,
        "summary"@ != "div"@,
        "summary"@ != "style"@,
        "summary"@ != "script"@,
        "summary"@ != "pre"@,
        "summary"@ != "details"@,
        "span"@ != "div"@,
        "span"@ != "style"@,
        "span"@ != "script"@,
        "span"@ != "pre"@,
        "span"@ != "details"@,
        "span"@ != "summary"@,
        "table"@ != "div"@,
        "table"@ != "style"@,
        "table"@ != "script"@,
        "table"@ != "pre"@,
        "table"@ != "details"@,
        "table"@ != "summary"@,
        "table"@ != "span"@,
{
    reveal_strlit("div");
    reveal_strlit("style");
    reveal_strlit("script");
    reveal_strlit("pre");
    reveal_strlit("details");
    reveal_strlit("summary");
    reveal_strlit("span");
    reveal_strlit("table");
    assert("style"@[1] == 't' && "table"@[0] == 't');
    assert("div"@[0] == 'd' && "script"@[0] == 's');
    assert("details"@[0] == 'd' && "summary"@[0] == 's');
    assert("details"@.len() == 7 && "summary"@.len() == 7);
    assert("div"@.len() == 3 && "script"@.len() == 6 && "style"@.len() == 5);
    assert("span"@.len() == 4 && "pre"@.len() == 3);
}

/// Collapsible parts and their headings keep their tags around their content,
/// and spans show their content, struck through or not.
pub proof fn law_inner_elements_keep_their_marks<H>(
    node: HtmlNode<H>,
    preserve_merged: bool,
    r: Rendering<'_, H>,
    content: Seq<char>,
)
    requires
        renders(node, preserve_merged, r),
        node.is_element("details"@) || node.is_element("summary"@) || node.is_element("span"@),
    ensures
        r matches Rendering::Inner(body, frame) && *body == node && {
            let shown = framed(frame, content);
            &&& node.is_element("details"@) ==> inks(shown) == "<details>"@ + inks(content)
                + "</details>"@
            &&& node.is_element("summary"@) ==> inks(shown) == "<summary>"@ + inks(content)
                + "</summary>"@
            &&& node.is_element("span"@) && is_struck(node) ==> shown == "~~"@ + content + "~~"@
            &&& node.is_element("span"@) && !is_struck(node) ==> shown == content
        },
{
    lemma_other_names();
    if let Rendering::Inner(body, frame) = r {
        if let Frame::Expand(title) = frame {
        } else {
            law_frame_keeps_its_content(content, arbitrary());
        }
    }
}

/// A table of one cell shows what is in the cell. Any other stays HTML where
/// that is wanted and it has merged cells or holds a table, and is left to the
/// converter otherwise.
pub proof fn law_table_is_kept_or_converted<H>(
    node: HtmlNode<H>,
    preserve_merged: bool,
    r: Rendering<'_, H>,
)
    requires
        renders(node, preserve_merged, r),
        node.is_element("table"@),
    ensures
        r is Fixed ==> preserve_merged && (merged_below(node) || table_below(node)),
        r matches Rendering::Fixed(s) ==> s@ == "\n\n"@ + tree_html(node) + "\n\n"@,
        r matches Rendering::Inner(body, frame) ==> single_cell(node) == Some(*body),
        preserve_merged && (merged_below(node) || table_below(node)) ==> !(r is Fallback),
        single_cell(node) is Some ==> r is Inner,
{
    lemma_other_names();
}

} // verus!
