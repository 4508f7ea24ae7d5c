//! HTML elements as trees of plain values, and what Confluence's own elements
//! become in Markdown.

use vstd::prelude::*;
use vstd::string::StringExecFns;

use crate::lookup::TextMap;
use crate::macros::alert_class;
use crate::text::{
    ascii_lower, chars_of, contains, find_from, index_from, is_number_above, lemma_index_from,
    lines, lower, number, occurs_at, occurs_in, only, opt_view, or_empty, part, pieces, same_text,
    split, split_lines, split_words, trim, trim_end_char, trim_start_char, trimmed, trimmed_end,
    trimmed_start, unicode_lower, views, white, words,
};

verus! {

// ── Trees ──────────────────────────────────────────────────────────

/// An attribute of an element.
#[derive(Debug)]
pub struct HtmlAttr {
    pub name: String,
    pub value: String,
}

/// What a node is by itself.
#[derive(Debug)]
pub enum NodeContent {
    Element { tag: String, attrs: Vec<HtmlAttr> },
    Text(String),
    Other,
}

/// A node with what is below it. The handle tells which node it is to whoever
/// made the tree.
#[derive(Debug)]
pub struct HtmlNode<H> {
    pub content: NodeContent,
    pub children: Vec<HtmlNode<H>>,
    pub handle: H,
}

impl<H> HtmlNode<H> {
    /// Whether the node is an element of the given name.
    pub open spec fn is_element(self, name: Seq<char>) -> bool {
        self.content matches NodeContent::Element { tag, attrs } && tag@ == name
    }

    /// The attributes of an element; none for another node.
    pub open spec fn attributes(self) -> Seq<HtmlAttr> {
        match self.content {
            NodeContent::Element { tag, attrs } => attrs@,
            _ => Seq::empty(),
        }
    }

    /// The value of the first attribute of the given name.
    pub open spec fn attribute(self, name: Seq<char>) -> Option<Seq<char>> {
        attribute_from(self.attributes(), name, 0)
    }

    /// Whether the node is an element of the given name.
    pub fn element_name_is(&self, expected: &str) -> (r: bool)
        ensures
            r == self.is_element(expected@),
    {
        match &self.content {
            NodeContent::Element { tag, attrs } => same_text(tag, expected),
            _ => false,
        }
    }

    /// The value of the first attribute of the given name.
    pub fn attr_of(&self, name: &str) -> (r: Option<String>)
        ensures
            opt_view(r) == self.attribute(name@),
    {
        match &self.content {
            NodeContent::Element { tag, attrs } => {
                let mut i: usize = 0;
                while i < attrs.len()
                    invariant
                        i <= attrs.len(),
                        self.attributes() == attrs@,
                        self.attribute(name@) == attribute_from(attrs@, name@, i as int),
                    decreases attrs.len() - i,
                {
                    if same_text(&attrs[i].name, name) {
                        return Some(attrs[i].value.clone());
                    }
                    i += 1;
                }
                None
            },
            _ => None,
        }
    }

    /// The class attribute; empty where there is none.
    pub fn class_of(&self) -> (r: String)
        ensures
            r@ == or_empty(self.attribute("class"@)),
    {
        match self.attr_of("class") {
            Some(c) => c,
            None => String::new(),
        }
    }
}

/// The value of the first attribute of the given name, from attribute `i` on.
pub open spec fn attribute_from(attrs: Seq<HtmlAttr>, name: Seq<char>, i: int) -> Option<Seq<char>>
    decreases attrs.len() - i,
{
    if i < 0 || i >= attrs.len() {
        None
    } else if attrs[i].name@ == name {
        Some(attrs[i].value@)
    } else {
        attribute_from(attrs, name, i + 1)
    }
}

// ── Tables ─────────────────────────────────────────────────────────

/// Whether an attribute makes a cell cover more than one column or row.
pub open spec fn is_span(a: HtmlAttr) -> bool {
    (a.name@ == "colspan"@ || a.name@ == "rowspan"@) && (number(
        trimmed(a.value@, white()),
        10,
    ) matches Some(v) && v > 1)
}

/// Whether an element in a tree covers more than one column or row.
pub open spec fn merged_below<H>(node: HtmlNode<H>) -> bool
    decreases node,
{
    ||| exists|i: int| 0 <= i < node.attributes().len() && is_span(#[trigger] node.attributes()[i])
    ||| exists|i: int|
        0 <= i < node.children@.len() && merged_below(#[trigger] node.children@[i])
}

/// Whether an element in a tree covers more than one column or row.
pub fn node_has_merged_cells<H>(node: &HtmlNode<H>) -> (r: bool)
    ensures
        r == merged_below(*node),
    decreases node,
{
    if let NodeContent::Element { tag, attrs } = &node.content {
        let mut i: usize = 0;
        while i < attrs.len()
            invariant
                i <= attrs.len(),
                attrs@ == node.attributes(),
                forall|k: int| 0 <= k < i ==> !is_span(#[trigger] attrs@[k]),
            decreases attrs.len() - i,
        {
            let a = &attrs[i];
            if (same_text(&a.name, "colspan") || same_text(&a.name, "rowspan")) && is_number_above(
                &chars_of(&trim(&a.value)),
                10,
                1,
            ) {
                assert(is_span(attrs@[i as int]));
                assert(is_span(node.attributes()[i as int]));
                return true;
            }
            i += 1;
        }
    }
    let mut i: usize = 0;
    while i < node.children.len()
        invariant
            i <= node.children.len(),
            forall|k: int|
                0 <= k < node.attributes().len() ==> !is_span(#[trigger] node.attributes()[k]),
            forall|k: int| 0 <= k < i ==> !merged_below(#[trigger] node.children@[k]),
        decreases node.children.len() - i,
    {
        if node_has_merged_cells(&node.children[i]) {
            assert(merged_below(node.children@[i as int]));
            return true;
        }
        i += 1;
    }
    false
}

/// Whether a table stands below a node.
pub open spec fn table_below<H>(node: HtmlNode<H>) -> bool
    decreases node,
{
    exists|i: int|
        0 <= i < node.children@.len() && ((#[trigger] node.children@[i]).is_element("table"@)
            || table_below(node.children@[i]))
}

/// Whether a table stands below a node.
pub fn node_has_nested_table<H>(node: &HtmlNode<H>) -> (r: bool)
    ensures
        r == table_below(*node),
    decreases node,
{
    let mut i: usize = 0;
    while i < node.children.len()
        invariant
            i <= node.children.len(),
            forall|k: int|
                0 <= k < i ==> !(#[trigger] node.children@[k]).is_element("table"@) && !table_below(
                    node.children@[k],
                ),
        decreases node.children.len() - i,
    {
        let child = &node.children[i];
        if child.element_name_is("table") || node_has_nested_table(child) {
            assert(node.children@[i as int].is_element("table"@) || table_below(
                node.children@[i as int],
            ));
            return true;
        }
        i += 1;
    }
    false
}

/// Whether a node is a part of a table that holds rows.
pub open spec fn is_row_group<H>(node: HtmlNode<H>) -> bool {
    node.is_element("thead"@) || node.is_element("tbody"@) || node.is_element("tfoot"@)
}

/// The rows among the first `n` nodes.
pub open spec fn rows_among<H>(nodes: Seq<HtmlNode<H>>, n: int) -> Seq<HtmlNode<H>>
    decreases n,
{
    if n <= 0 {
        Seq::empty()
    } else if nodes[n - 1].is_element("tr"@) {
        rows_among(nodes, n - 1).push(nodes[n - 1])
    } else {
        rows_among(nodes, n - 1)
    }
}

/// The rows among the first `n` nodes and in the row groups among them.
pub open spec fn grouped_rows<H>(nodes: Seq<HtmlNode<H>>, n: int) -> Seq<HtmlNode<H>>
    decreases n,
{
    if n <= 0 {
        Seq::empty()
    } else {
        let node = nodes[n - 1];
        grouped_rows(nodes, n - 1) + if node.is_element("tr"@) {
            seq![node]
        } else if is_row_group(node) {
            rows_among(node.children@, node.children@.len() as int)
        } else {
            Seq::empty()
        }
    }
}

/// The cells among the first `n` nodes.
pub open spec fn cells_among<H>(nodes: Seq<HtmlNode<H>>, n: int) -> Seq<HtmlNode<H>>
    decreases n,
{
    if n <= 0 {
        Seq::empty()
    } else if nodes[n - 1].is_element("td"@) || nodes[n - 1].is_element("th"@) {
        cells_among(nodes, n - 1).push(nodes[n - 1])
    } else {
        cells_among(nodes, n - 1)
    }
}

/// The nodes that a list of references points to.
pub open spec fn pointed<H>(v: Seq<&HtmlNode<H>>) -> Seq<HtmlNode<H>> {
    Seq::new(v.len(), |i: int| *v[i])
}

/// The rows of a table, outside of nested tables.
pub fn direct_table_rows<H>(node: &HtmlNode<H>) -> (r: Vec<&HtmlNode<H>>)
    ensures
        pointed(r@) == grouped_rows(node.children@, node.children@.len() as int),
{
    let mut rows: Vec<&HtmlNode<H>> = Vec::new();
    let mut i: usize = 0;
    assert(pointed(rows@) =~= Seq::empty());
    while i < node.children.len()
        invariant
            i <= node.children.len(),
            pointed(rows@) == grouped_rows(node.children@, i as int),
        decreases node.children.len() - i,
    {
        let child = &node.children[i];
        let ghost before = pointed(rows@);
        if child.element_name_is("tr") {
            rows.push(child);
            assert(pointed(rows@) =~= before + seq![*child]);
        } else if child.element_name_is("thead") || child.element_name_is("tbody")
            || child.element_name_is("tfoot") {
            let mut k: usize = 0;
            assert(before + rows_among(child.children@, 0) =~= before);
            while k < child.children.len()
                invariant
                    k <= child.children.len(),
                    pointed(rows@) == before + rows_among(child.children@, k as int),
                decreases child.children.len() - k,
            {
                let inner = &child.children[k];
                let ghost so_far = pointed(rows@);
                if inner.element_name_is("tr") {
                    rows.push(inner);
                    assert(pointed(rows@) =~= so_far.push(*inner));
                }
                k += 1;
                assert(pointed(rows@) =~= before + rows_among(child.children@, k as int));
            }
        }
        i += 1;
        assert(pointed(rows@) =~= grouped_rows(node.children@, i as int));
    }
    rows
}

/// The cells of a row.
pub fn direct_row_cells<H>(node: &HtmlNode<H>) -> (r: Vec<&HtmlNode<H>>)
    ensures
        pointed(r@) == cells_among(node.children@, node.children@.len() as int),
{
    let mut cells: Vec<&HtmlNode<H>> = Vec::new();
    let mut i: usize = 0;
    assert(pointed(cells@) =~= Seq::empty());
    while i < node.children.len()
        invariant
            i <= node.children.len(),
            pointed(cells@) == cells_among(node.children@, i as int),
        decreases node.children.len() - i,
    {
        let child = &node.children[i];
        let ghost before = pointed(cells@);
        if child.element_name_is("td") || child.element_name_is("th") {
            cells.push(child);
            assert(pointed(cells@) =~= before.push(*child));
        }
        i += 1;
    }
    cells
}

/// The only cell of a table that has one row with one cell.
pub open spec fn single_cell<H>(node: HtmlNode<H>) -> Option<HtmlNode<H>> {
    let rows = grouped_rows(node.children@, node.children@.len() as int);
    if rows.len() != 1 {
        None
    } else {
        let cells = cells_among(rows[0].children@, rows[0].children@.len() as int);
        if cells.len() == 1 {
            Some(cells[0])
        } else {
            None
        }
    }
}

/// The only cell of a table that has one row with one cell.
pub fn table_single_cell<H>(node: &HtmlNode<H>) -> (r: Option<&HtmlNode<H>>)
    ensures
        match r {
            Some(c) => single_cell(*node) == Some(*c),
            None => single_cell(*node) is None,
        },
{
    let rows = direct_table_rows(node);
    assert(pointed(rows@).len() == rows@.len());
    if rows.len() != 1 {
        return None;
    }
    assert(pointed(rows@)[0] == *rows@[0]);
    let cells = direct_row_cells(rows[0]);
    assert(pointed(cells@).len() == cells@.len());
    if cells.len() == 1 {
        assert(pointed(cells@)[0] == *cells@[0]);
        Some(cells[0])
    } else {
        None
    }
}

// ── Searching below a node ─────────────────────────────────────────

/// Whether a node is an element of the given class.
pub open spec fn has_class<H>(node: HtmlNode<H>, class: Seq<char>) -> bool {
    exists|i: int|
        0 <= i < node.attributes().len() && is_class(#[trigger] node.attributes()[i], class)
}

/// Whether an attribute names a class.
pub open spec fn is_class(a: HtmlAttr, class: Seq<char>) -> bool {
    a.name@ == "class"@ && words(a.value@).contains(class)
}

fn names_class(a: &HtmlAttr, class: &str) -> (r: bool)
    ensures
        r == is_class(*a, class@),
{
    if !same_text(&a.name, "class") {
        return false;
    }
    let names = split_words(&a.value);
    let ghost all = views(names@);
    let mut i: usize = 0;
    while i < names.len()
        invariant
            a.name@ == "class"@,
            all == views(names@),
            all == words(a.value@),
            i <= names.len(),
            forall|k: int| 0 <= k < i ==> (#[trigger] all[k]) != class@,
        decreases names.len() - i,
    {
        assert(all[i as int] == names@[i as int]@);
        if same_text(&names[i], class) {
            assert(all[i as int] == class@);
            return true;
        }
        i += 1;
    }
    false
}

fn node_has_class<H>(node: &HtmlNode<H>, class: &str) -> (r: bool)
    ensures
        r == has_class(*node, class@),
{
    match &node.content {
        NodeContent::Element { tag, attrs } => {
            let mut i: usize = 0;
            while i < attrs.len()
                invariant
                    attrs@ == node.attributes(),
                    i <= attrs.len(),
                    forall|k: int| 0 <= k < i ==> !is_class(#[trigger] attrs@[k], class@),
                decreases attrs.len() - i,
            {
                if names_class(&attrs[i], class) {
                    assert(is_class(node.attributes()[i as int], class@));
                    return true;
                }
                i += 1;
            }
            false
        },
        _ => false,
    }
}

/// The first element of a class below a node, in document order.
pub open spec fn descendant_of_class<H>(node: HtmlNode<H>, class: Seq<char>) -> Option<HtmlNode<H>>
    decreases node, node.children@.len() + 1,
{
    descendant_from(node, class, 0)
}

/// The first element of a class among the children of a node from child `i`
/// on, and below them.
pub open spec fn descendant_from<H>(node: HtmlNode<H>, class: Seq<char>, i: int) -> Option<
    HtmlNode<H>,
>
    decreases node, node.children@.len() - i,
{
    if i < 0 || i >= node.children@.len() {
        None
    } else if has_class(node.children@[i], class) {
        Some(node.children@[i])
    } else {
        match descendant_of_class(node.children@[i], class) {
            Some(found) => Some(found),
            None => descendant_from(node, class, i + 1),
        }
    }
}

/// The first element of a class below a node, in document order.
pub fn find_descendant_by_class<'a, H>(node: &'a HtmlNode<H>, class_token: &str) -> (r: Option<
    &'a HtmlNode<H>,
>)
    ensures
        match r {
            Some(n) => descendant_of_class(*node, class_token@) == Some(*n),
            None => descendant_of_class(*node, class_token@) is None,
        },
    decreases node,
{
    let mut i: usize = 0;
    while i < node.children.len()
        invariant
            i <= node.children.len(),
            descendant_of_class(*node, class_token@) == descendant_from(
                *node,
                class_token@,
                i as int,
            ),
        decreases node.children.len() - i,
    {
        let child = &node.children[i];
        if node_has_class(child, class_token) {
            return Some(child);
        }
        if let Some(found) = find_descendant_by_class(child, class_token) {
            return Some(found);
        }
        i += 1;
    }
    None
}

/// All text in a tree.
pub open spec fn raw_text<H>(node: HtmlNode<H>) -> Seq<char>
    decreases node, node.children@.len() + 1,
{
    match node.content {
        NodeContent::Text(s) => s@,
        _ => raw_text_upto(node, node.children@.len() as int),
    }
}

/// All text in the first `n` children of a node.
pub open spec fn raw_text_upto<H>(node: HtmlNode<H>, n: int) -> Seq<char>
    decreases node, n,
{
    if n <= 0 || n > node.children@.len() {
        Seq::empty()
    } else {
        raw_text_upto(node, n - 1) + raw_text(node.children@[n - 1])
    }
}

/// All text in a tree.
pub fn raw_text_of<H>(node: &HtmlNode<H>) -> (r: String)
    ensures
        r@ == raw_text(*node),
    decreases node,
{
    if let NodeContent::Text(s) = &node.content {
        return s.clone();
    }
    let mut out: String = String::new();
    let mut i: usize = 0;
    while i < node.children.len()
        invariant
            i <= node.children.len(),
            out@ == raw_text_upto(*node, i as int),
        decreases node.children.len() - i,
    {
        let inner = raw_text_of(&node.children[i]);
        out.append(&inner);
        i += 1;
    }
    out
}

// ── Writing a tree as HTML ─────────────────────────────────────────

/// What a character becomes in an attribute value.
pub open spec fn value_char(c: char) -> Seq<char> {
    if c == '"' {
        "&quot;"@
    } else if c == '&' {
        "&amp;"@
    } else if c == '<' {
        "&lt;"@
    } else {
        seq![c]
    }
}

/// An attribute value with its special characters escaped.
pub open spec fn value_escaped(t: Seq<char>) -> Seq<char>
    decreases t.len(),
{
    if t.len() == 0 {
        Seq::empty()
    } else {
        value_escaped(t.drop_last()) + value_char(t.last())
    }
}

/// What a character becomes in text content.
pub open spec fn content_char(c: char) -> Seq<char> {
    if c == '&' {
        "&amp;"@
    } else if c == '<' {
        "&lt;"@
    } else if c == '>' {
        "&gt;"@
    } else {
        seq![c]
    }
}

/// Text content with its special characters escaped.
pub open spec fn content_escaped(t: Seq<char>) -> Seq<char>
    decreases t.len(),
{
    if t.len() == 0 {
        Seq::empty()
    } else {
        content_escaped(t.drop_last()) + content_char(t.last())
    }
}

fn escape_value(text: &str) -> (r: String)
    ensures
        r@ == value_escaped(text@),
{
    let t = chars_of(text);
    let mut out: String = String::new();
    let mut i: usize = 0;
    while i < t.len()
        invariant
            t@ == text@,
            i <= t.len(),
            out@ == value_escaped(t@.take(i as int)),
        decreases t.len() - i,
    {
        let ghost before = out@;
        let c: char = t[i];
        if c == '"' {
            out.append("&quot;");
        } else if c == '&' {
            out.append("&amp;");
        } else if c == '<' {
            out.append("&lt;");
        } else {
            out.push(c);
            assert(out@ =~= before + value_char(c));
        }
        assert(t@.take(i + 1).drop_last() =~= t@.take(i as int));
        i += 1;
    }
    assert(t@.take(t.len() as int) =~= t@);
    out
}

fn escape_content(text: &str) -> (r: String)
    ensures
        r@ == content_escaped(text@),
{
    let t = chars_of(text);
    let mut out: String = String::new();
    let mut i: usize = 0;
    while i < t.len()
        invariant
            t@ == text@,
            i <= t.len(),
            out@ == content_escaped(t@.take(i as int)),
        decreases t.len() - i,
    {
        let ghost before = out@;
        let c: char = t[i];
        if c == '&' {
            out.append("&amp;");
        } else if c == '<' {
            out.append("&lt;");
        } else if c == '>' {
            out.append("&gt;");
        } else {
            out.push(c);
            assert(out@ =~= before + content_char(c));
        }
        assert(t@.take(i + 1).drop_last() =~= t@.take(i as int));
        i += 1;
    }
    assert(t@.take(t.len() as int) =~= t@);
    out
}

/// The elements that hold only elements with lines of their own; their
/// closing tag gets a line too.
pub open spec fn is_container(tag: Seq<char>) -> bool {
    tag == "table"@ || tag == "colgroup"@ || tag == "thead"@ || tag == "tbody"@ || tag == "tfoot"@
        || tag == "tr"@
}

/// The elements that get a line of their own.
pub open spec fn is_block(tag: Seq<char>) -> bool {
    is_container(tag) || tag == "col"@ || tag == "th"@ || tag == "td"@
}

fn tag_is_container(tag: &str) -> (r: bool)
    ensures
        r == is_container(tag@),
{
    same_text(tag, "table") || same_text(tag, "colgroup") || same_text(tag, "thead") || same_text(
        tag,
        "tbody",
    ) || same_text(tag, "tfoot") || same_text(tag, "tr")
}

fn tag_is_block(tag: &str) -> (r: bool)
    ensures
        r == is_block(tag@),
{
    tag_is_container(tag) || same_text(tag, "col") || same_text(tag, "th") || same_text(tag, "td")
}

/// The first `n` attributes as they are written in a tag.
pub open spec fn attributes_html(attrs: Seq<HtmlAttr>, n: int) -> Seq<char>
    decreases n,
{
    if n <= 0 {
        Seq::empty()
    } else {
        attributes_html(attrs, n - 1) + " "@ + attrs[n - 1].name@ + "=\""@ + value_escaped(
            attrs[n - 1].value@,
        ) + "\""@
    }
}

/// The start of a new line.
pub open spec fn new_line(indent: Seq<char>, wanted: bool) -> Seq<char> {
    if wanted {
        "\n"@ + indent
    } else {
        Seq::empty()
    }
}

/// A tree as indented HTML: the elements of a table each on a line of their
/// own, the content of cells inline.
pub open spec fn node_html<H>(node: HtmlNode<H>, indent: Seq<char>) -> Seq<char>
    decreases node, node.children@.len() + 1,
{
    let n = node.children@.len() as int;
    match node.content {
        NodeContent::Element { tag, attrs } => {
            let inner = if is_block(tag@) {
                indent + "  "@
            } else {
                indent
            };
            new_line(indent, is_block(tag@)) + "<"@ + tag@ + attributes_html(
                attrs@,
                attrs@.len() as int,
            ) + ">"@ + children_html(node, inner, n) + new_line(indent, is_container(tag@)) + "</"@
                + tag@ + ">"@
        },
        NodeContent::Text(s) => content_escaped(s@),
        NodeContent::Other => children_html(node, indent, n),
    }
}

/// The first `n` children of a node as indented HTML.
pub open spec fn children_html<H>(node: HtmlNode<H>, indent: Seq<char>, n: int) -> Seq<char>
    decreases node, n,
{
    if n <= 0 || n > node.children@.len() {
        Seq::empty()
    } else {
        children_html(node, indent, n - 1) + node_html(node.children@[n - 1], indent)
    }
}

fn render_attributes(attrs: &Vec<HtmlAttr>) -> (r: String)
    ensures
        r@ == attributes_html(attrs@, attrs@.len() as int),
{
    let mut out: String = String::new();
    let mut i: usize = 0;
    while i < attrs.len()
        invariant
            i <= attrs.len(),
            out@ == attributes_html(attrs@, i as int),
        decreases attrs.len() - i,
    {
        out.append(" ");
        out.append(&attrs[i].name);
        out.append("=\"");
        out.append(&escape_value(&attrs[i].value));
        out.append("\"");
        i += 1;
    }
    out
}

fn render_new_line(indent: &str, wanted: bool) -> (r: String)
    ensures
        r@ == new_line(indent@, wanted),
{
    let mut out: String = String::new();
    if wanted {
        out = "\n".to_owned();
        out.append(indent);
    }
    out
}

fn render_children<H>(node: &HtmlNode<H>, indent: &str) -> (r: String)
    ensures
        r@ == children_html(*node, indent@, node.children@.len() as int),
    decreases node, 0nat,
{
    let mut out: String = String::new();
    let mut i: usize = 0;
    while i < node.children.len()
        invariant
            i <= node.children.len(),
            out@ == children_html(*node, indent@, i as int),
        decreases node.children.len() - i,
    {
        let inner = render_node(&node.children[i], indent);
        out.append(&inner);
        i += 1;
    }
    out
}

fn render_node<H>(node: &HtmlNode<H>, indent: &str) -> (r: String)
    ensures
        r@ == node_html(*node, indent@),
    decreases node, 1nat,
{
    match &node.content {
        NodeContent::Element { tag, attrs } => {
            let mut out: String = render_new_line(indent, tag_is_block(tag));
            out.append("<");
            out.append(tag);
            out.append(&render_attributes(attrs));
            out.append(">");
            let mut inner: String = indent.to_owned();
            if tag_is_block(tag) {
                inner.append("  ");
            }
            out.append(&render_children(node, &inner));
            out.append(&render_new_line(indent, tag_is_container(tag)));
            out.append("</");
            out.append(tag);
            out.append(">");
            out
        },
        NodeContent::Text(s) => escape_content(s),
        NodeContent::Other => render_children(node, indent),
    }
}

/// A tree as indented HTML, without the line breaks at its start.
pub open spec fn tree_html<H>(node: HtmlNode<H>) -> Seq<char> {
    trimmed_start(node_html(node, ""@), only('\n'))
}

/// Writes a tree as indented HTML.
pub fn serialize_node_to_html<H>(node: &HtmlNode<H>) -> (r: String)
    ensures
        r@ == tree_html(*node),
{
    let html = render_node(node, "");
    trim_start_char(&html, '\n')
}

// ── Styles and parameters ──────────────────────────────────────────

/// The two parts of a text around its first colon.
pub open spec fn around_colon(t: Seq<char>) -> Option<(Seq<char>, Seq<char>)> {
    match index_from(t, ":"@, 0) {
        Some(i) => Some((t.take(i), t.skip(i + 1))),
        None => None,
    }
}

fn split_at_colon(text: &str) -> (r: Option<(String, String)>)
    ensures
        match r {
            Some((a, b)) => around_colon(text@) == Some((a@, b@)),
            None => around_colon(text@) is None,
        },
{
    let t = chars_of(text);
    proof {
        reveal_strlit(":");
        lemma_index_from(t@, ":"@, 0);
    }
    match find_from(&t, ":", 0) {
        Some(i) => {
            let a = part(&t, 0, i);
            let b = part(&t, i + 1, t.len());
            assert(a@ =~= t@.take(i as int));
            assert(b@ =~= t@.skip(i + 1));
            Some((a, b))
        },
        None => None,
    }
}

/// The property and the value of a style rule.
pub open spec fn css_rule(rule: Seq<char>) -> Option<(Seq<char>, Seq<char>)> {
    match around_colon(rule) {
        Some((a, b)) => Some((trimmed(a, white()), trimmed(b, white()))),
        None => None,
    }
}

/// The property and the value of a style rule.
pub fn parse_css_rule(rule: &str) -> (r: Option<(String, String)>)
    ensures
        match r {
            Some((a, b)) => css_rule(rule@) == Some((a@, b@)),
            None => css_rule(rule@) is None,
        },
{
    match split_at_colon(rule) {
        Some((a, b)) => Some((trim(&a), trim(&b))),
        None => None,
    }
}

/// The style that the first `n` rules give: values by property, all in lower
/// case; a later rule wins.
pub open spec fn style_upto(rules: Seq<Seq<char>>, n: int) -> Map<Seq<char>, Seq<char>>
    decreases n,
{
    if n <= 0 {
        Map::empty()
    } else {
        match css_rule(trimmed(rules[n - 1], white())) {
            Some((k, v)) => style_upto(rules, n - 1).insert(unicode_lower(k), unicode_lower(v)),
            None => style_upto(rules, n - 1),
        }
    }
}

/// The style that a style attribute gives.
pub open spec fn css_style(style: Seq<char>) -> Map<Seq<char>, Seq<char>> {
    let rules = pieces(style, ';');
    style_upto(rules, rules.len() as int)
}

/// The style that a style attribute gives.
pub fn parse_css_style(style: &str) -> (r: TextMap)
    ensures
        r@ == css_style(style@),
{
    let rules = split(style, ';');
    let ghost all = views(rules@);
    let mut map = TextMap::new();
    let mut i: usize = 0;
    while i < rules.len()
        invariant
            all == views(rules@),
            all == pieces(style@, ';'),
            i <= rules.len(),
            map@ == style_upto(all, i as int),
        decreases rules.len() - i,
    {
        assert(all[i as int] == rules@[i as int]@);
        if let Some((k, v)) = parse_css_rule(&trim(&rules[i])) {
            map.insert(k.to_lowercase(), v.to_lowercase());
        }
        i += 1;
    }
    map
}

/// Whether a style attribute strikes the text through.
pub open spec fn strikes(style: Seq<char>) -> bool {
    let s = css_style(style);
    s.contains_key("text-decoration"@) && s["text-decoration"@] == "line-through"@
}

/// Whether the style of an element strikes its text through.
pub open spec fn is_struck<H>(node: HtmlNode<H>) -> bool {
    match node.attribute("style"@) {
        Some(style) => strikes(style),
        None => false,
    }
}

/// Whether the style of an element strikes its text through.
pub fn span_has_style_text_decoration_line_through<H>(node: &HtmlNode<H>) -> (r: bool)
    ensures
        r == is_struck(*node),
{
    match node.attr_of("style") {
        Some(style) => match parse_css_style(&style).get("text-decoration") {
            Some(v) => same_text(v, "line-through"),
            None => false,
        },
        None => false,
    }
}

/// The brush that the pieces of highlighter parameters name, from piece `i`
/// on. The search ends at a piece without a colon.
pub open spec fn brush_from(params: Seq<Seq<char>>, i: int) -> Option<Seq<char>>
    decreases params.len() - i,
{
    if i < 0 || i >= params.len() {
        None
    } else {
        match css_rule(params[i]) {
            Some((k, v)) => if lower(k) == "brush"@ {
                Some(v)
            } else {
                brush_from(params, i + 1)
            },
            None => None,
        }
    }
}

/// The brush that highlighter parameters such as `brush: rust; gutter: false`
/// name.
pub fn parse_brush(params: &str) -> (r: Option<String>)
    ensures
        opt_view(r) == brush_from(pieces(params@, ';'), 0),
{
    let parts = split(params, ';');
    let ghost all = views(parts@);
    let mut i: usize = 0;
    while i < parts.len()
        invariant
            all == views(parts@),
            all == pieces(params@, ';'),
            i <= parts.len(),
            brush_from(all, 0) == brush_from(all, i as int),
        decreases parts.len() - i,
    {
        assert(all[i as int] == parts@[i as int]@);
        match parse_css_rule(&parts[i]) {
            Some((k, v)) => {
                if same_text(&ascii_lower(&k), "brush") {
                    return Some(v);
                }
            },
            None => {
                return None;
            },
        }
        i += 1;
    }
    None
}

// ── Alerts ─────────────────────────────────────────────────────────

/// The kind of alert that a class attribute asks for.
pub open spec fn alert_type(class: Seq<char>) -> Option<Seq<char>> {
    if occurs_in(class, "confluence-information-macro-information"@) {
        Some("IMPORTANT"@)
    } else if occurs_in(class, "confluence-information-macro-note"@) {
        Some("WARNING"@)
    } else if occurs_in(class, "confluence-information-macro-tip"@) {
        Some("TIP"@)
    } else if occurs_in(class, "confluence-information-macro-warning"@) {
        Some("CAUTION"@)
    } else if occurs_in(class, "confluence-information-macro-panel"@) {
        Some("NOTE"@)
    } else {
        None
    }
}

/// The kind of alert that a class attribute asks for.
pub fn alert_type_from_class(class: &str) -> (r: Option<&'static str>)
    ensures
        match r {
            Some(s) => alert_type(class@) == Some(s@),
            None => alert_type(class@) is None,
        },
{
    if contains(class, "confluence-information-macro-information") {
        Some("IMPORTANT")
    } else if contains(class, "confluence-information-macro-note") {
        Some("WARNING")
    } else if contains(class, "confluence-information-macro-tip") {
        Some("TIP")
    } else if contains(class, "confluence-information-macro-warning") {
        Some("CAUTION")
    } else if contains(class, "confluence-information-macro-panel") {
        Some("NOTE")
    } else {
        None
    }
}

/// The alert that a storage-format macro becomes.
pub open spec fn alert_of_macro(name: Seq<char>) -> Option<Seq<char>> {
    if name == "info"@ {
        Some("IMPORTANT"@)
    } else if name == "panel"@ {
        Some("NOTE"@)
    } else if name == "tip"@ {
        Some("TIP"@)
    } else if name == "note"@ {
        Some("WARNING"@)
    } else if name == "warning"@ {
        Some("CAUTION"@)
    } else {
        None
    }
}

/// The class of an alert with a kind word.
spec fn kind_class(word: Seq<char>) -> Seq<char> {
    "confluence-information-macro-"@ + word
}

/// The class attribute that the element of an alert carries.
spec fn alert_attribute(class: Seq<char>) -> Seq<char> {
    "confluence-information-macro "@ + class
}

/// No blank stands in the common start of the classes.
proof fn lemma_no_blank(k: int)
    requires
        0 <= k < 29,
    ensures
        "confluence-information-macro-"@[k] != ' ',
{
    reveal_strlit("confluence-information-macro-");
}

/// The common start of the classes begins nowhere inside itself, up to its
/// tenth character.
proof fn lemma_start_is_unique(d: int)
    requires
        1 <= d <= 11,
    ensures
        ({
            let s = "confluence-information-macro-"@;
            s[d] != s[0] || s[d + 1] != s[1]
        }),
{
    reveal_strlit("confluence-information-macro-");
}

/// A class occurs in the class attribute of its own kind, and in no other.
proof fn lemma_kind_occurs(word: Seq<char>, other: Seq<char>)
    requires
        0 < word.len() <= 11,
        0 < other.len() <= 11,
    ensures
        occurs_in(alert_attribute(kind_class(word)), kind_class(word)),
        word[0] != other[0] ==> !occurs_in(alert_attribute(kind_class(word)), kind_class(other)),
{
    let start = "confluence-information-macro-"@;
    let blank = "confluence-information-macro "@;
    assert(start.len() == 29) by {
        reveal_strlit("confluence-information-macro-");
    }
    assert(blank.len() == 29 && blank[28] == ' ') by {
        reveal_strlit("confluence-information-macro ");
    }
    let t = alert_attribute(kind_class(word));
    let p = kind_class(word);
    let q = kind_class(other);
    assert(t.subrange(29, (29 + p.len()) as int) =~= p);
    lemma_index_from(t, p, 0);
    assert(occurs_at(t, p, 29));
    lemma_index_from(t, q, 0);
    if word[0] != other[0] {
        assert forall|i: int| 0 <= i implies !occurs_at(t, q, i) by {
            if occurs_at(t, q, i) {
                let s = t.subrange(i, i + q.len());
                assert(forall|k: int| 0 <= k < q.len() ==> s[k] == t[i + k]);
                if i <= 28 {
                    lemma_no_blank(28 - i);
                    assert(q[28 - i] == start[28 - i]);
                    assert(s[28 - i] == t[28]);
                } else if i == 29 {
                    assert(s[29] == t[58]);
                    assert(t[58] == word[0] && q[29] == other[0]);
                } else {
                    let d = i - 29;
                    lemma_start_is_unique(d);
                    assert(s[0] == t[i] && s[1] == t[i + 1]);
                    assert(t[i] == start[d] && t[i + 1] == start[d + 1]);
                    assert(q[0] == start[0] && q[1] == start[1]);
                }
            }
        }
    }
}

/// Each alert macro becomes its GitHub alert: the element that stands for it
/// carries a class that is read back as that kind.
pub proof fn law_alert_macro_becomes_its_alert(name: Seq<char>)
    requires
        alert_of_macro(name) is Some,
    ensures
        alert_type("confluence-information-macro "@ + alert_class(name)) == alert_of_macro(name),
{
    reveal_strlit("confluence-information-macro-");
    reveal_strlit("confluence-information-macro-information");
    reveal_strlit("confluence-information-macro-note");
    reveal_strlit("confluence-information-macro-tip");
    reveal_strlit("confluence-information-macro-warning");
    reveal_strlit("confluence-information-macro-panel");
    reveal_strlit("info");
    reveal_strlit("panel");
    reveal_strlit("tip");
    reveal_strlit("note");
    reveal_strlit("warning");
    let i = seq!['i', 'n', 'f', 'o', 'r', 'm', 'a', 't', 'i', 'o', 'n'];
    assert("confluence-information-macro-information"@ =~= kind_class(i));
    assert("confluence-information-macro-note"@ =~= kind_class("note"@));
    assert("confluence-information-macro-tip"@ =~= kind_class("tip"@));
    assert("confluence-information-macro-warning"@ =~= kind_class("warning"@));
    assert("confluence-information-macro-panel"@ =~= kind_class("panel"@));
    let word = if name == "info"@ {
        i
    } else {
        name
    };
    if name == "info"@ {
        assert(name[0] == 'i');
    }
    assert(alert_class(name) == kind_class(word));
    lemma_kind_occurs(word, i);
    lemma_kind_occurs(word, "note"@);
    lemma_kind_occurs(word, "tip"@);
    lemma_kind_occurs(word, "warning"@);
    lemma_kind_occurs(word, "panel"@);
}

/// A line of a quotation.
pub open spec fn quoted_line(line: Seq<char>) -> Seq<char> {
    if line.len() == 0 {
        ">\n"@
    } else {
        "> "@ + line + "\n"@
    }
}

/// The first `n` lines as a quotation.
pub open spec fn quoted(body: Seq<Seq<char>>, n: int) -> Seq<char>
    decreases n,
{
    if n <= 0 {
        Seq::empty()
    } else {
        quoted(body, n - 1) + quoted_line(body[n - 1])
    }
}

/// An alert in Markdown: a quotation under its kind.
pub open spec fn alert_markdown(alert: Seq<char>, body: Seq<char>) -> Seq<char> {
    "\n\n> [!"@ + alert + "]\n"@ + quoted(lines(body), lines(body).len() as int) + "\n"@
}

/// An alert in Markdown: a quotation under its kind.
pub fn render_alert(alert: &str, body: &str) -> (r: String)
    ensures
        r@ == alert_markdown(alert@, body@),
{
    let body_lines = split_lines(body);
    let ghost all = views(body_lines@);
    let mut inner: String = String::new();
    let mut i: usize = 0;
    while i < body_lines.len()
        invariant
            all == views(body_lines@),
            all == lines(body@),
            i <= body_lines.len(),
            inner@ == quoted(all, i as int),
        decreases body_lines.len() - i,
    {
        let ghost before = inner@;
        assert(all[i as int] == body_lines@[i as int]@);
        if chars_of(&body_lines[i]).len() == 0 {
            inner.append(">\n");
        } else {
            let mut line: String = "> ".to_owned();
            line.append(&body_lines[i]);
            line.append("\n");
            inner.append(&line);
        }
        i += 1;
    }
    let mut out: String = "\n\n> [!".to_owned();
    out.append(alert);
    out.append("]\n");
    out.append(&inner);
    out.append("\n");
    out
}

// ── Elements in Markdown ───────────────────────────────────────────

/// What is put around the Markdown of an element's content.
#[derive(Debug)]
pub enum Frame {
    Plain,
    Struck,
    Details,
    Summary,
    Cell,
    Expand(String),
    Alert(String),
}

/// The Markdown of an element, from that of its content.
pub open spec fn framed(frame: Frame, content: Seq<char>) -> Seq<char> {
    let inner = trimmed(content, white());
    match frame {
        Frame::Plain => content,
        Frame::Struck => "~~"@ + content + "~~"@,
        Frame::Details => "\n\n<details>\n"@ + inner + "\n</details>\n\n"@,
        Frame::Summary => "<summary>"@ + inner + "</summary>\n\n"@,
        Frame::Cell => "\n\n"@ + inner + "\n\n"@,
        Frame::Expand(title) => "\n\n<details>\n<summary>"@ + trimmed(title@, white())
            + "</summary>\n\n"@ + inner + "\n</details>\n\n"@,
        Frame::Alert(kind) => alert_markdown(kind@, inner),
    }
}

fn around(before: &str, inner: &str, after: &str) -> (r: String)
    ensures
        r@ == before@ + inner@ + after@,
{
    let mut out: String = before.to_owned();
    out.append(inner);
    out.append(after);
    out
}

/// The Markdown of an element, from that of its content.
pub fn frame_content(frame: &Frame, content: String) -> (r: String)
    ensures
        r@ == framed(*frame, content@),
{
    match frame {
        Frame::Plain => content,
        Frame::Struck => around("~~", &content, "~~"),
        Frame::Details => around("\n\n<details>\n", &trim(&content), "\n</details>\n\n"),
        Frame::Summary => around("<summary>", &trim(&content), "</summary>\n\n"),
        Frame::Cell => around("\n\n", &trim(&content), "\n\n"),
        Frame::Expand(title) => {
            let head = around("\n\n<details>\n<summary>", &trim(title), "</summary>\n\n");
            around(&head, &trim(&content), "\n</details>\n\n")
        },
        Frame::Alert(kind) => render_alert(kind, &trim(&content)),
    }
}

/// How an element is turned into Markdown: as the converter does by itself, as
/// a fixed text, or from the content of a node.
#[derive(Debug)]
pub enum Rendering<'a, H> {
    Fallback,
    Fixed(String),
    Inner(&'a HtmlNode<H>, Frame),
}

/// The element that holds the body of a container: the first of the given
/// class below it, and the container itself where there is none.
pub open spec fn body_of<H>(node: HtmlNode<H>, class: Seq<char>) -> HtmlNode<H> {
    match descendant_of_class(node, class) {
        Some(body) => body,
        None => node,
    }
}

/// Whether a rendering is the one that a `div` gets.
pub open spec fn renders_div<H>(node: HtmlNode<H>, r: Rendering<'_, H>) -> bool {
    let class = or_empty(node.attribute("class"@));
    if occurs_in(class, "expand-container"@) {
        &&& r matches Rendering::Inner(body, Frame::Expand(title))
        &&& *body == body_of(node, "expand-content"@)
        &&& title@ == match descendant_of_class(node, "expand-control-text"@) {
            Some(control) => raw_text(control),
            None => Seq::empty(),
        }
    } else if occurs_in(class, "expand-control"@) {
        r matches Rendering::Fixed(s) && s@ == Seq::<char>::empty()
    } else if occurs_in(class, "confluence-information-macro"@) {
        &&& r matches Rendering::Inner(body, Frame::Alert(kind))
        &&& *body == body_of(node, "confluence-information-macro-body"@)
        &&& kind@ == match alert_type(class) {
            Some(k) => k,
            None => "NOTE"@,
        }
    } else {
        r matches Rendering::Inner(body, Frame::Plain) && *body == node
    }
}

fn find_body<'a, H>(node: &'a HtmlNode<H>, class: &str) -> (r: &'a HtmlNode<H>)
    ensures
        *r == body_of(*node, class@),
{
    match find_descendant_by_class(node, class) {
        Some(body) => body,
        None => node,
    }
}

/// How a `div` is turned into Markdown.
pub fn div_rendering<'a, H>(node: &'a HtmlNode<H>) -> (r: Rendering<'a, H>)
    ensures
        renders_div(*node, r),
{
    let class = node.class_of();
    if contains(&class, "expand-container") {
        let title = match find_descendant_by_class(node, "expand-control-text") {
            Some(control) => raw_text_of(control),
            None => String::new(),
        };
        Rendering::Inner(find_body(node, "expand-content"), Frame::Expand(title))
    } else if contains(&class, "expand-control") {
        Rendering::Fixed(String::new())
    } else if contains(&class, "confluence-information-macro") {
        let kind = match alert_type_from_class(&class) {
            Some(k) => k,
            None => "NOTE",
        };
        Rendering::Inner(
            find_body(node, "confluence-information-macro-body"),
            Frame::Alert(kind.to_owned()),
        )
    } else {
        Rendering::Inner(node, Frame::Plain)
    }
}

/// The code block of a highlighted `pre`.
pub open spec fn code_block(brush: Seq<char>, code: Seq<char>) -> Seq<char> {
    "\n\n```"@ + brush + "\n"@ + trimmed_end(code, only('\n')) + "\n```\n\n"@
}

/// Whether a rendering is the one that a `pre` gets.
pub open spec fn renders_pre<H>(node: HtmlNode<H>, r: Rendering<'_, H>) -> bool {
    if occurs_in(or_empty(node.attribute("class"@)), "syntaxhighlighter-pre"@) {
        let params = or_empty(node.attribute("data-syntaxhighlighter-params"@));
        r matches Rendering::Fixed(s) && s@ == code_block(
            or_empty(brush_from(pieces(params, ';'), 0)),
            raw_text(node),
        )
    } else {
        r is Fallback
    }
}

/// How a `pre` is turned into Markdown.
pub fn pre_rendering<'a, H>(node: &'a HtmlNode<H>) -> (r: Rendering<'a, H>)
    ensures
        renders_pre(*node, r),
{
    if !contains(&node.class_of(), "syntaxhighlighter-pre") {
        return Rendering::Fallback;
    }
    let params = match node.attr_of("data-syntaxhighlighter-params") {
        Some(p) => p,
        None => String::new(),
    };
    let brush = match parse_brush(&params) {
        Some(b) => b,
        None => String::new(),
    };
    let code = trim_end_char(&raw_text_of(node), '\n');
    let mut out: String = "\n\n```".to_owned();
    out.append(&brush);
    out.append("\n");
    out.append(&code);
    out.append("\n```\n\n");
    Rendering::Fixed(out)
}

/// Whether a rendering is the one that a `table` gets. A table of one cell is
/// unwrapped; one that Markdown cannot show stays HTML where that is wanted.
pub open spec fn renders_table<H>(
    node: HtmlNode<H>,
    preserve_merged: bool,
    r: Rendering<'_, H>,
) -> bool {
    match single_cell(node) {
        Some(cell) => r matches Rendering::Inner(body, Frame::Cell) && *body == cell,
        None => if preserve_merged && (merged_below(node) || table_below(node)) {
            r matches Rendering::Fixed(s) && s@ == "\n\n"@ + tree_html(node) + "\n\n"@
        } else {
            r is Fallback
        },
    }
}

/// How a `table` is turned into Markdown.
pub fn table_rendering<'a, H>(node: &'a HtmlNode<H>, preserve_merged: bool) -> (r: Rendering<'a, H>)
    ensures
        renders_table(*node, preserve_merged, r),
{
    match table_single_cell(node) {
        Some(cell) => Rendering::Inner(cell, Frame::Cell),
        None => {
            if preserve_merged && (node_has_merged_cells(node) || node_has_nested_table(node)) {
                Rendering::Fixed(around("\n\n", &serialize_node_to_html(node), "\n\n"))
            } else {
                Rendering::Fallback
            }
        },
    }
}

/// Whether a rendering is the one that an element gets.
pub open spec fn renders<H>(
    node: HtmlNode<H>,
    preserve_merged: bool,
    r: Rendering<'_, H>,
) -> bool {
    if node.is_element("div"@) {
        renders_div(node, r)
    } else if node.is_element("style"@) || node.is_element("script"@) {
        r matches Rendering::Fixed(s) && s@ == Seq::<char>::empty()
    } else if node.is_element("pre"@) {
        renders_pre(node, r)
    } else if node.is_element("details"@) {
        r matches Rendering::Inner(body, Frame::Details) && *body == node
    } else if node.is_element("summary"@) {
        r matches Rendering::Inner(body, Frame::Summary) && *body == node
    } else if node.is_element("span"@) {
        &&& r matches Rendering::Inner(body, frame)
        &&& *body == node
        &&& frame == if is_struck(node) {
            Frame::Struck
        } else {
            Frame::Plain
        }
    } else if node.is_element("table"@) {
        renders_table(node, preserve_merged, r)
    } else {
        r is Fallback
    }
}

/// How an element is turned into Markdown.
pub fn rendering<'a, H>(node: &'a HtmlNode<H>, preserve_merged: bool) -> (r: Rendering<'a, H>)
    ensures
        renders(*node, preserve_merged, r),
{
    if node.element_name_is("div") {
        div_rendering(node)
    } else if node.element_name_is("style") || node.element_name_is("script") {
        Rendering::Fixed(String::new())
    } else if node.element_name_is("pre") {
        pre_rendering(node)
    } else if node.element_name_is("details") {
        Rendering::Inner(node, Frame::Details)
    } else if node.element_name_is("summary") {
        Rendering::Inner(node, Frame::Summary)
    } else if node.element_name_is("span") {
        if span_has_style_text_decoration_line_through(node) {
            Rendering::Inner(node, Frame::Struck)
        } else {
            Rendering::Inner(node, Frame::Plain)
        }
    } else if node.element_name_is("table") {
        table_rendering(node, preserve_merged)
    } else {
        Rendering::Fallback
    }
}

/// The Markdown of an element; none where the converter's own is wanted.
/// `walk` gives the Markdown of a node's content.
pub fn element_markdown<H, F: Fn(&HtmlNode<H>) -> String>(
    node: &HtmlNode<H>,
    preserve_merged: bool,
    walk: F,
) -> (r: Option<String>)
    requires
        forall|n: &HtmlNode<H>| call_requires(walk, (n,)),
    ensures
        exists|plan: Rendering<'_, H>| #[trigger]
            renders(*node, preserve_merged, plan) && match plan {
                Rendering::Fallback => r is None,
                Rendering::Fixed(s) => r == Some(s),
                Rendering::Inner(body, frame) => r matches Some(out) && exists|content: String| #[trigger]
                    call_ensures(walk, (body,), content) && out@ == framed(frame, content@),
            },
{
    let plan = rendering(node, preserve_merged);
    match plan {
        Rendering::Fallback => None,
        Rendering::Fixed(s) => Some(s),
        Rendering::Inner(body, frame) => {
            let content = walk(body);
            Some(frame_content(&frame, content))
        },
    }
}

} // verus!
