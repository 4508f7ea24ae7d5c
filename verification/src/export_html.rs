//! Conversion of Confluence export-view HTML to Markdown.
//!
//! The conversion itself is done by the `htmd` crate. This module prepares
//! the HTML, supplies the elements that Confluence has on its own, and cleans
//! the Markdown up:
//!
//! * Alerts become GitHub alert quotations (`> [!IMPORTANT]` and so on).
//! * Expand containers, `<details>` and `<summary>` are kept as HTML.
//! * A highlighted `pre` becomes a fenced code block with its brush name.
//! * A table without a head gets its first row as head.
//! * A table of one cell is unwrapped.
//! * In [`TableConversion::Default`] mode a table with merged cells or nested
//!   tables is kept as HTML.
//! * In [`TableConversion::Always`] mode merged cells are expanded into a flat
//!   grid, and nested tables are placed behind the outer table, with a marker
//!   such as `(*1)` in their cell.

use vstd::prelude::*;
use vstd::string::StringExecFns;

use crate::cells::{
    cells_expanded, expand_merged_cells, has_merged_cells, html_has_merged_cells,
    promote_first_row_to_thead, rows_promoted,
};
use crate::dom::{element_markdown, HtmlAttr, HtmlNode, NodeContent};
use crate::headings::{headings_linked, rewrite_internal_heading_links};
use crate::pattern::{spans_placed, splice, spliced, Span};
use crate::tables::{
    extract_nested_tables_from_table, extracted, find_top_level_table_ranges,
    first_direct_nested_table_range, lemma_angles_bound, nested_range, nested_views, table_ranges,
    Extraction, NestedTable,
};
use crate::text::{
    chars_of, decimal, index_from, is_white_space, joined, law_decimal_reads_back,
    lemma_decimal_digits, lemma_index_from, lemma_skip, lemma_skip_back, occurs_at, occurs_in,
    opt_view, or_empty, part, push_decimal, replace, replaced, replaced_from, skip, skip_back,
    stands_at, trim, trimmed, views, white,
};

verus! {

/// How tables that Markdown cannot show are treated.
#[derive(Debug, Clone, Copy, PartialEq, Eq, Structural)]
pub enum TableConversion {
    Default,
    Always,
}

impl Default for TableConversion {
    fn default() -> (r: Self)
        ensures
            r == TableConversion::Default,
    {
        TableConversion::Default
    }
}

/// The options of a conversion.
#[derive(Debug, Clone, Copy)]
pub struct ConvertOptions {
    pub table_conversion: TableConversion,
}

impl Default for ConvertOptions {
    fn default() -> (r: Self)
        ensures
            r.table_conversion == TableConversion::Default,
    {
        ConvertOptions { table_conversion: TableConversion::Default }
    }
}

// ── The outside converter ──────────────────────────────────────────

/// The sign before the items of an unordered list.
#[derive(Debug, Clone, Copy, PartialEq, Eq, Structural)]
pub enum ListMarker {
    Asterisk,
    Dash,
}

/// A node of the tree that the converter works on.
#[verifier::external_type_specification]
#[verifier::external_body]
pub struct ExNode(htmd::Node);

/// The Markdown that `htmd` makes of an HTML text, with the elements of the
/// given tags rendered as [`element_markdown`] says.
pub uninterp spec fn htmd_markdown(
    html: Seq<char>,
    tags: Seq<Seq<char>>,
    preserve_merged: bool,
    marker: ListMarker,
    spacing: u8,
) -> Option<Seq<char>>;

/// A node of the converter's tree as a plain value.
#[verifier::external_body]
fn plain_node(node: &std::rc::Rc<htmd::Node>) -> HtmlNode<std::rc::Rc<htmd::Node>> {
    let content = match &node.data {
        markup5ever_rcdom::NodeData::Element { name, attrs, .. } => NodeContent::Element {
            tag: name.local.to_string(),
            attrs: attrs
                .borrow()
                .iter()
                .map(|a| HtmlAttr { name: a.name.local.to_string(), value: a.value.to_string() })
                .collect(),
        },
        markup5ever_rcdom::NodeData::Text { contents: t } => NodeContent::Text(t.borrow().to_string()),
        _ => NodeContent::Other,
    };
    let children = node.children.borrow().iter().map(plain_node).collect();
    HtmlNode { content, children, handle: node.clone() }
}

/// `htmd::HtmlToMarkdown::convert`, with the given sign and number of spaces
/// before the items of an unordered list. The elements of the given tags are
/// handed to [`element_markdown`]; where it gives nothing, the converter's own
/// handler takes over. None where the converter reports an error. What
/// Markdown the converter makes of its own elements is left to the named
/// result.
#[verifier::external_body]
fn htmd_convert(
    html: &str,
    tags: Vec<&'static str>,
    preserve_merged: bool,
    marker: ListMarker,
    spacing: u8,
) -> (r: Option<String>)
    requires
        tags@.len() > 0,
    ensures
        opt_view(r) == htmd_markdown(
            html@,
            Seq::new(tags@.len(), |i: int| tags@[i]@),
            preserve_merged,
            marker,
            spacing,
        ),
{
    let mut options = htmd::options::Options::default();
    options.bullet_list_marker = match marker {
        ListMarker::Asterisk => htmd::options::BulletListMarker::Asterisk,
        ListMarker::Dash => htmd::options::BulletListMarker::Dash,
    };
    options.ul_bullet_spacing = spacing;
    let handler = move |handlers: &dyn htmd::element_handler::Handlers, e: htmd::Element| {
        let walk = |n: &HtmlNode<_>| handlers.walk_children(&n.handle).content;
        match element_markdown(&plain_node(e.node), preserve_merged, walk) {
            Some(markdown) => Some(markdown.into()),
            None => handlers.fallback(e),
        }
    };
    let builder = htmd::HtmlToMarkdown::builder().options(options).add_handler(tags, handler);
    builder.build().convert(html).ok()
}

/// The tags of the elements that Confluence has on its own.
pub open spec fn handled_tags() -> Seq<Seq<char>> {
    seq![
        "div"@,
        "style"@,
        "script"@,
        "pre"@,
        "details"@,
        "summary"@,
        "span"@,
        "table"@,
    ]
}

/// How many spaces stand between the dash of a list item and its text.
pub const LIST_SPACING: u8 = 1;

/// The Markdown of an HTML text before it is cleaned up, with dashes before
/// list items; empty where it cannot be converted.
pub open spec fn raw_markdown(html: Seq<char>, preserve_merged: bool) -> Seq<char> {
    or_empty(htmd_markdown(html, handled_tags(), preserve_merged, ListMarker::Dash, LIST_SPACING))
}

fn convert_html(html: &str, preserve_merged: bool) -> (r: String)
    ensures
        r@ == raw_markdown(html@, preserve_merged),
{
    let mut tags: Vec<&'static str> = Vec::new();
    tags.push("div");
    tags.push("style");
    tags.push("script");
    tags.push("pre");
    tags.push("details");
    tags.push("summary");
    tags.push("span");
    tags.push("table");
    assert(Seq::new(tags@.len(), |i: int| tags@[i]@) =~= handled_tags());
    match htmd_convert(html, tags, preserve_merged, ListMarker::Dash, LIST_SPACING) {
        Some(md) => md,
        None => String::new(),
    }
}

// ── Cleaning up ────────────────────────────────────────────────────

/// A text with every run of line feeds cut down to two.
pub open spec fn feeds_capped(t: Seq<char>) -> Seq<char>
    decreases t.len(),
{
    let n = t.len();
    if n == 0 {
        t
    } else if n >= 3 && t[n - 1] == '\n' && t[n - 2] == '\n' && t[n - 3] == '\n' {
        feeds_capped(t.drop_last())
    } else {
        feeds_capped(t.drop_last()).push(t.last())
    }
}

/// Markdown cleaned up: no run of blank lines, task markers without escapes,
/// and one line feed at the end.
pub open spec fn cleaned(t: Seq<char>) -> Seq<char> {
    trimmed(
        replaced(replaced(feeds_capped(t), r"\[x\]"@, "[x]"@), r"\[ \]"@, "[ ]"@),
        white(),
    ) + "\n"@
}

/// How many line feeds stand at the end of a text, counted up to two.
spec fn feeds_at_end(t: Seq<char>) -> int {
    if t.len() >= 2 && t[t.len() - 1] == '\n' && t[t.len() - 2] == '\n' {
        2
    } else if t.len() >= 1 && t[t.len() - 1] == '\n' {
        1
    } else {
        0
    }
}

/// Cuts every run of line feeds down to two.
fn cap_feeds(s: &str) -> (r: String)
    ensures
        r@ == feeds_capped(s@),
{
    let t = chars_of(s);
    let mut out: String = String::new();
    let mut run: usize = 0;
    let mut i: usize = 0;
    while i < t.len()
        invariant
            t@ == s@,
            i <= t.len(),
            out@ == feeds_capped(t@.take(i as int)),
            run == feeds_at_end(t@.take(i as int)),
        decreases t.len() - i,
    {
        let ghost head = t@.take(i as int);
        let ghost next = t@.take(i + 1);
        assert(next.drop_last() =~= head);
        let c: char = t[i];
        if c == '\n' {
            if run < 2 {
                out.push(c);
                run += 1;
            }
        } else {
            out.push(c);
            run = 0;
        }
        i += 1;
    }
    assert(t@.take(t.len() as int) =~= t@);
    out
}

/// Cleans Markdown up.
pub fn post_process(s: &str) -> (r: String)
    ensures
        r@ == cleaned(s@),
{
    proof {
        reveal_strlit(r"\[x\]");
        reveal_strlit(r"\[ \]");
    }
    let collapsed = cap_feeds(s);
    let marked = replace(&collapsed, r"\[x\]", "[x]");
    let marked = replace(&marked, r"\[ \]", "[ ]");
    joined(&trim(&marked), "\n")
}

/// Whether no three line feeds stand in a row.
pub open spec fn no_feed_triple(t: Seq<char>) -> bool {
    forall|i: int|
        0 <= i < t.len() - 2 ==> !((#[trigger] t[i]) == '\n' && t[i + 1] == '\n' && t[i + 2]
            == '\n')
}

proof fn lemma_feeds_capped(t: Seq<char>)
    ensures
        no_feed_triple(feeds_capped(t)),
        feeds_at_end(feeds_capped(t)) == feeds_at_end(t),
        t.len() > 0 ==> feeds_capped(t).len() > 0,
    decreases t.len(),
{
    if t.len() > 0 {
        let rest = t.drop_last();
        lemma_feeds_capped(rest);
        let before = feeds_capped(rest);
        let after = feeds_capped(t);
        assert forall|i: int| 0 <= i < after.len() - 2 implies !((#[trigger] after[i]) == '\n'
            && after[i + 1] == '\n' && after[i + 2] == '\n') by {
            if i + 2 < before.len() {
                assert(after[i] == before[i] && after[i + 1] == before[i + 1] && after[i + 2]
                    == before[i + 2]);
                assert(!(before[i] == '\n' && before[i + 1] == '\n' && before[i + 2] == '\n'));
            }
        }
    }
}

/// Replacing by a text without line feeds brings no line feeds together.
proof fn lemma_replaced_from_feeds(t: Seq<char>, p: Seq<char>, q: Seq<char>, i: int)
    requires
        0 <= i,
        no_feed_triple(t),
        q.len() > 0,
        forall|k: int| 0 <= k < q.len() ==> (#[trigger] q[k]) != '\n',
    ensures
        ({
            let r = replaced_from(t, p, q, i);
            &&& no_feed_triple(r)
            &&& r.len() >= 1 && r[0] == '\n' ==> i < t.len() && t[i] == '\n'
            &&& r.len() >= 2 && r[0] == '\n' && r[1] == '\n' ==> i + 1 < t.len() && t[i] == '\n'
                && t[i + 1] == '\n'
        }),
    decreases t.len() - i,
{
    if i < t.len() {
        let r = replaced_from(t, p, q, i);
        let (head, rest) = if p.len() > 0 && occurs_at(t, p, i) {
            lemma_replaced_from_feeds(t, p, q, i + p.len());
            (q, replaced_from(t, p, q, i + p.len()))
        } else {
            lemma_replaced_from_feeds(t, p, q, i + 1);
            (seq![t[i]], replaced_from(t, p, q, i + 1))
        };
        assert(r == head + rest);
        assert forall|k: int| 0 <= k < r.len() - 2 implies !((#[trigger] r[k]) == '\n' && r[k + 1]
            == '\n' && r[k + 2] == '\n') by {
            if k >= head.len() {
                let j = k - head.len();
                assert(r[k] == rest[j] && r[k + 1] == rest[j + 1] && r[k + 2] == rest[j + 2]);
                assert(!(rest[j] == '\n' && rest[j + 1] == '\n' && rest[j + 2] == '\n'));
            } else {
                assert(r[k] == head[k]);
                if head.len() == 1 {
                    assert(r[k + 1] == rest[0] && r[k + 2] == rest[1]);
                    if r[k] == '\n' && rest[0] == '\n' && rest[1] == '\n' {
                        assert(!(t[i] == '\n' && t[i + 1] == '\n' && t[i + 2] == '\n'));
                    }
                }
            }
        }
        if r.len() >= 2 && head.len() == 1 && rest.len() >= 1 {
            assert(r[1] == rest[0]);
        }
        if head == q {
            assert(r[0] == q[0]);
        }
    }
}

/// Whether a text starts with no white space, ends in exactly one line feed
/// with no white space before it, and nowhere has three line feeds in a row.
/// A text of one line feed is the only one that starts with it.
pub open spec fn is_clean(t: Seq<char>) -> bool {
    &&& t.len() > 0
    &&& t.last() == '\n'
    &&& t.len() > 1 ==> !is_white_space(t[0]) && !is_white_space(t[t.len() - 2])
    &&& no_feed_triple(t)
}

/// Cleaned Markdown is clean.
pub proof fn law_cleaned_is_clean(t: Seq<char>)
    ensures
        is_clean(cleaned(t)),
{
    reveal_strlit("[x]");
    reveal_strlit("[ ]");
    reveal_strlit("\n");
    lemma_feeds_capped(t);
    let a = feeds_capped(t);
    lemma_replaced_from_feeds(a, r"\[x\]"@, "[x]"@, 0);
    let b = replaced(a, r"\[x\]"@, "[x]"@);
    lemma_replaced_from_feeds(b, r"\[ \]"@, "[ ]"@, 0);
    let c = replaced(b, r"\[ \]"@, "[ ]"@);
    let from = skip(c, white(), 0);
    let to = skip_back(c, white(), c.len() as int);
    lemma_skip(c, white(), 0);
    lemma_skip_back(c, white(), c.len() as int);
    let d = trimmed(c, white());
    let r = cleaned(t);
    assert(r == d + "\n"@);
    if d.len() > 0 {
        assert(r[0] == c[from] && r[r.len() - 2] == c[to - 1]);
    }
    assert forall|i: int| 0 <= i < r.len() - 2 implies !((#[trigger] r[i]) == '\n' && r[i + 1]
        == '\n' && r[i + 2] == '\n') by {
        if i + 2 < d.len() {
            assert(r[i] == c[from + i] && r[i + 1] == c[from + i + 1] && r[i + 2] == c[from + i
                + 2]);
            assert(!(c[from + i] == '\n' && c[from + i + 1] == '\n' && c[from + i + 2] == '\n'));
        } else {
            assert(r[i + 1] == d.last());
            assert(d.last() == c[to - 1]);
            assert(!is_white_space(c[to - 1]));
        }
    }
}

// ── Tables that stay tables ────────────────────────────────────────

/// What a top-level table becomes where tables that Markdown cannot show are
/// to stay HTML.
pub open spec fn compatible_table(table: Seq<char>) -> Seq<char> {
    if has_merged_cells(table) || nested_range(table) is Some {
        table
    } else {
        rows_promoted(table)
    }
}

/// The text of a span.
pub open spec fn span_text(t: Seq<char>, s: Span) -> Seq<char> {
    t.subrange(s.start as int, s.end as int)
}

/// A page whose tables have heads, as far as Markdown can show them.
pub open spec fn compatible_promoted(t: Seq<char>) -> Seq<char> {
    let ranges = table_ranges(t);
    spliced(t, ranges, Seq::new(ranges.len(), |i: int| compatible_table(span_text(t, ranges[i]))))
}

/// Promotes the first row of those tables that can safely become Markdown
/// tables. Tables with merged cells or nested tables are left untouched, so
/// that they can be kept as readable HTML.
pub fn promote_markdown_compatible_tables_to_thead(html: &str) -> (r: String)
    ensures
        r@ == compatible_promoted(html@),
{
    let t = chars_of(html);
    let ranges = find_top_level_table_ranges(html);
    let mut reps: Vec<String> = Vec::new();
    let mut i: usize = 0;
    while i < ranges.len()
        invariant
            t@ == html@,
            ranges@ == table_ranges(t@),
            spans_placed(t@.len(), ranges@),
            i <= ranges.len(),
            reps.len() == i,
            forall|k: int|
                0 <= k < i ==> (#[trigger] reps[k])@ == compatible_table(
                    span_text(t@, ranges@[k]),
                ),
        decreases ranges.len() - i,
    {
        let s = ranges[i];
        let table = part(&t, s.start, s.end);
        if html_has_merged_cells(&table) || first_direct_nested_table_range(&table).is_some() {
            reps.push(table);
        } else {
            reps.push(promote_first_row_to_thead(&table));
        }
        i += 1;
    }
    assert(views(reps@) =~= Seq::new(
        ranges@.len(),
        |i: int| compatible_table(span_text(t@, ranges@[i])),
    ));
    splice(&t, &ranges, &reps)
}

// ── Nested tables ──────────────────────────────────────────────────

/// The Markdown of a table on its own.
pub open spec fn fragment_markdown(table: Seq<char>) -> Seq<char> {
    trimmed(cleaned(raw_markdown(rows_promoted(cells_expanded(table)), false)), white())
}

/// The Markdown of a table on its own.
pub fn convert_table_fragment_always(table_html: &str) -> (r: String)
    ensures
        r@ == fragment_markdown(table_html@),
{
    let expanded = expand_merged_cells(table_html);
    let promoted = promote_first_row_to_thead(&expanded);
    let md = convert_html(&promoted, false);
    trim(&post_process(&md))
}

/// An outer table in Markdown, followed by the first `n` nested tables in
/// Markdown, each under its marker.
pub open spec fn with_nested(outer: Seq<char>, tables: Seq<(Seq<char>, Seq<char>)>, n: int) -> Seq<
    char,
>
    decreases n,
{
    if n <= 0 {
        outer
    } else {
        with_nested(outer, tables, n - 1) + "\n\n"@ + tables[n - 1].0 + "\n\n"@ + tables[n - 1].1
    }
}

/// An outer table in Markdown, followed by nested tables in Markdown, each
/// under its marker.
pub fn append_nested(outer: &str, tables: &Vec<NestedTable>) -> (r: String)
    ensures
        r@ == with_nested(outer@, nested_views(tables@), tables@.len() as int),
{
    let mut out: String = outer.to_owned();
    let mut i: usize = 0;
    while i < tables.len()
        invariant
            i <= tables.len(),
            out@ == with_nested(outer@, nested_views(tables@), i as int),
        decreases tables.len() - i,
    {
        out.append("\n\n");
        out.append(&tables[i].marker);
        out.append("\n\n");
        out.append(&tables[i].html);
        i += 1;
    }
    out
}

/// Tables with their HTML turned into Markdown.
pub open spec fn in_markdown(tables: Seq<(Seq<char>, Seq<char>)>) -> Seq<(Seq<char>, Seq<char>)> {
    Seq::new(tables.len(), |i: int| (tables[i].0, fragment_markdown(tables[i].1)))
}

/// The Markdown of a table whose nested tables have been taken out.
pub open spec fn extraction_markdown(e: Extraction) -> Seq<char> {
    with_nested(fragment_markdown(e.outer), in_markdown(e.tables), e.tables.len() as int)
}

/// The token that stands for the `n`-th block of Markdown on a page. Its last
/// letter keeps it from being the start of another token.
pub open spec fn block_token(n: nat) -> Seq<char> {
    "C2MDNESTEDTABLEBLOCK"@ + decimal(n) + "E"@
}

/// A page in which tokens stand for tables with nested tables.
pub struct Tokenized {
    /// What stands for each top-level table.
    pub pieces: Seq<Seq<char>>,
    /// The tokens and the Markdown they stand for.
    pub blocks: Seq<(Seq<char>, Seq<char>)>,
    /// The number of the last marker used.
    pub markers: nat,
}

/// The first `n` top-level tables of a page, those with nested tables as
/// tokens.
pub open spec fn tokenized(t: Seq<char>, ranges: Seq<Span>, n: int) -> Tokenized
    decreases n,
{
    if n <= 0 {
        Tokenized { pieces: Seq::empty(), blocks: Seq::empty(), markers: 0 }
    } else {
        let before = tokenized(t, ranges, n - 1);
        let table = span_text(t, ranges[n - 1]);
        if nested_range(table) is None {
            Tokenized { pieces: before.pieces.push(table), ..before }
        } else {
            let e = extracted(table, before.markers);
            let token = block_token(before.blocks.len() + 1);
            Tokenized {
                pieces: before.pieces.push(token),
                blocks: before.blocks.push((token, extraction_markdown(e))),
                markers: e.count,
            }
        }
    }
}

/// The top-level tables of a page, those with nested tables as tokens.
pub open spec fn page_tokenized(t: Seq<char>) -> Tokenized {
    tokenized(t, table_ranges(t), table_ranges(t).len() as int)
}

/// A text that stands for another.
#[derive(Debug)]
pub struct Substitution {
    pub token: String,
    pub text: String,
}

/// The tokens and texts of a list of substitutions.
pub open spec fn substitution_views(v: Seq<Substitution>) -> Seq<(Seq<char>, Seq<char>)> {
    Seq::new(v.len(), |i: int| (v[i].token@, v[i].text@))
}

fn make_token(n: usize) -> (r: String)
    ensures
        r@ == block_token(n as nat),
{
    let mut token: String = "C2MDNESTEDTABLEBLOCK".to_owned();
    push_decimal(&mut token, n);
    token.append("E");
    token
}

/// The Markdown of a table and of the tables taken out of it.
fn render_extraction(outer: &str, nested: &Vec<NestedTable>) -> (r: String)
    ensures
        r@ == with_nested(
            fragment_markdown(outer@),
            in_markdown(nested_views(nested@)),
            nested@.len() as int,
        ),
{
    let outer_md = convert_table_fragment_always(outer);
    let mut nested_md: Vec<NestedTable> = Vec::new();
    let mut k: usize = 0;
    while k < nested.len()
        invariant
            k <= nested.len(),
            nested_md.len() == k,
            forall|j: int|
                0 <= j < k ==> (#[trigger] nested_md[j]).marker@ == nested[j].marker@
                    && nested_md[j].html@ == fragment_markdown(nested[j].html@),
        decreases nested.len() - k,
    {
        nested_md.push(
            NestedTable {
                marker: nested[k].marker.clone(),
                html: convert_table_fragment_always(&nested[k].html),
            },
        );
        k += 1;
    }
    proof {
        let tables = nested_views(nested@);
        assert forall|j: int| 0 <= j < nested@.len() implies nested_views(nested_md@)[j]
            == in_markdown(tables)[j] by {
            assert(tables[j] == (nested[j].marker@, nested[j].html@));
        }
        assert(nested_views(nested_md@) =~= in_markdown(tables));
    }
    append_nested(&outer_md, &nested_md)
}

/// Replaces tables that contain nested tables by tokens, and prepares the
/// Markdown that the tokens stand for: the outer table, with markers in its
/// cells, followed by the nested tables under their markers.
pub fn preprocess_nested_tables_always(html: &str) -> (r: (String, Vec<Substitution>))
    ensures
        r.0@ == spliced(html@, table_ranges(html@), page_tokenized(html@).pieces),
        substitution_views(r.1@) == page_tokenized(html@).blocks,
{
    let t = chars_of(html);
    let ranges = find_top_level_table_ranges(html);
    let mut pieces: Vec<String> = Vec::new();
    let mut blocks: Vec<Substitution> = Vec::new();
    let mut markers: usize = 0;
    let mut i: usize = 0;
    assert(views(pieces@) =~= Seq::empty());
    assert(substitution_views(blocks@) =~= Seq::empty());
    while i < ranges.len()
        invariant
            t@ == html@,
            ranges@ == table_ranges(t@),
            spans_placed(t@.len(), ranges@),
            i <= ranges.len(),
            pieces.len() == i,
            blocks.len() <= i,
            views(pieces@) == tokenized(t@, ranges@, i as int).pieces,
            substitution_views(blocks@) == tokenized(t@, ranges@, i as int).blocks,
            markers == tokenized(t@, ranges@, i as int).markers,
            markers <= if i == 0 {
                0
            } else {
                ranges@[i - 1].end as int
            },
        decreases ranges.len() - i,
    {
        let s = ranges[i];
        let ghost before = tokenized(t@, ranges@, i as int);
        assert(i > 0 ==> ranges@[i - 1].end <= ranges@[i as int].start);
        let table = part(&t, s.start, s.end);
        if first_direct_nested_table_range(&table).is_none() {
            pieces.push(table);
            assert(views(pieces@) =~= before.pieces.push(table@));
        } else {
            proof {
                lemma_angles_bound(table@);
            }
            let (outer, nested) = extract_nested_tables_from_table(&table, &mut markers);
            let text = render_extraction(&outer, &nested);
            assert(nested_views(nested@).len() == nested@.len());
            assert(text@ == extraction_markdown(extracted(table@, before.markers)));
            assert(substitution_views(blocks@).len() == blocks@.len());
            let token = make_token(blocks.len() + 1);
            pieces.push(token.clone());
            assert(views(pieces@) =~= before.pieces.push(token@));
            let ghost pair = (token@, text@);
            blocks.push(Substitution { token, text });
            assert(substitution_views(blocks@) =~= before.blocks.push(pair));
        }
        i += 1;
    }
    (splice(&t, &ranges, &pieces), blocks)
}

/// The first substitution, from number `k` on, whose token stands at position
/// `i`.
pub open spec fn token_at(t: Seq<char>, subs: Seq<(Seq<char>, Seq<char>)>, i: int, k: int) -> Option<
    int,
>
    decreases subs.len() - k,
{
    if k < 0 || k >= subs.len() {
        None
    } else if subs[k].0.len() > 0 && occurs_at(t, subs[k].0, i) {
        Some(k)
    } else {
        token_at(t, subs, i, k + 1)
    }
}

/// `t` from `i` on, with every token replaced by the text that it stands for.
pub open spec fn substituted_from(t: Seq<char>, subs: Seq<(Seq<char>, Seq<char>)>, i: int) -> Seq<
    char,
>
    decreases t.len() - i,
{
    if i < 0 || i >= t.len() {
        Seq::empty()
    } else {
        match token_at(t, subs, i, 0) {
            Some(k) => if 0 < subs[k].0.len() <= t.len() - i {
                subs[k].1 + substituted_from(t, subs, i + subs[k].0.len())
            } else {
                Seq::empty()
            },
            None => seq![t[i]] + substituted_from(t, subs, i + 1),
        }
    }
}

/// A text with every token replaced by the text that it stands for.
pub open spec fn substituted(t: Seq<char>, subs: Seq<(Seq<char>, Seq<char>)>) -> Seq<char> {
    substituted_from(t, subs, 0)
}

fn find_token(t: &[char], subs: &Vec<Substitution>, i: usize) -> (r: Option<(usize, usize)>)
    requires
        i < t.len(),
    ensures
        match r {
            Some((k, len)) => token_at(t@, substitution_views(subs@), i as int, 0) == Some(
                k as int,
            ) && k < subs@.len() && len == subs@[k as int].token@.len() && 0 < len && i + len
                <= t@.len(),
            None => token_at(t@, substitution_views(subs@), i as int, 0) is None,
        },
{
    let ghost all = substitution_views(subs@);
    let mut k: usize = 0;
    while k < subs.len()
        invariant
            i < t.len(),
            all == substitution_views(subs@),
            k <= subs.len(),
            token_at(t@, all, i as int, 0) == token_at(t@, all, i as int, k as int),
        decreases subs.len() - k,
    {
        assert(all[k as int] == (subs@[k as int].token@, subs@[k as int].text@));
        let token = chars_of(&subs[k].token);
        if token.len() > 0 && stands_at(t, &token, i) {
            return Some((k, token.len()));
        }
        k += 1;
    }
    None
}

/// Replaces every token by the text that it stands for. What the texts hold
/// is not looked at again.
pub fn substitute(md: &str, subs: &Vec<Substitution>) -> (r: String)
    ensures
        r@ == substituted(md@, substitution_views(subs@)),
{
    let t = chars_of(md);
    let ghost all = substitution_views(subs@);
    let mut out: String = String::new();
    let mut i: usize = 0;
    while i < t.len()
        invariant
            t@ == md@,
            all == substitution_views(subs@),
            i <= t.len(),
            out@ + substituted_from(t@, all, i as int) == substituted(t@, all),
        decreases t.len() - i,
    {
        let ghost before = out@;
        let ghost rest = substituted_from(t@, all, i as int);
        match find_token(&t, subs, i) {
            Some((k, len)) => {
                assert(all[k as int] == (subs@[k as int].token@, subs@[k as int].text@));
                out.append(&subs[k].text);
                i += len;
            },
            None => {
                out.push(t[i]);
                assert(out@ =~= before + seq![t[i as int]]);
                i += 1;
            },
        }
        assert(out@ + substituted_from(t@, all, i as int) =~= before + rest);
    }
    assert(out@ =~= substituted(t@, all));
    out
}

/// No token occurs in another: neither is a part of the other.
pub proof fn law_tokens_are_apart(i: nat, j: nat)
    requires
        i != j,
    ensures
        !occurs_in(block_token(i), block_token(j)),
        !occurs_in(block_token(j), block_token(i)),
{
    lemma_token_not_in(i, j);
    lemma_token_not_in(j, i);
}

/// The word that tokens start with does not start again inside a token.
proof fn lemma_token_start(n: nat, d: int)
    requires
        0 < d < block_token(n).len(),
    ensures
        !(block_token(n)[d] == 'C' && d + 1 < block_token(n).len() && block_token(n)[d + 1] == '2'),
{
    let t = block_token(n);
    let word = "C2MDNESTEDTABLEBLOCK"@;
    reveal_strlit("C2MDNESTEDTABLEBLOCK");
    reveal_strlit("E");
    lemma_decimal_digits(n);
    if d < 19 {
        assert(t[d] == word[d] && t[d + 1] == word[d + 1]);
    } else if d == 19 {
        assert(t[d] == word[19]);
    } else if d < 20 + decimal(n).len() {
        assert(t[d] == decimal(n)[d - 20]);
    } else {
        assert(t[d] == 'E');
    }
}

proof fn lemma_token_not_in(i: nat, j: nat)
    requires
        i != j,
    ensures
        !occurs_in(block_token(i), block_token(j)),
{
    let t = block_token(i);
    let p = block_token(j);
    reveal_strlit("C2MDNESTEDTABLEBLOCK");
    reveal_strlit("E");
    lemma_decimal_digits(i);
    lemma_decimal_digits(j);
    lemma_index_from(t, p, 0);
    if occurs_in(t, p) {
        let d = index_from(t, p, 0)->0;
        let s = t.subrange(d, d + p.len());
        assert(s[0] == t[d] && s[1] == t[d + 1]);
        assert(p[0] == 'C' && p[1] == '2');
        if d > 0 {
            lemma_token_start(i, d);
        } else {
            lemma_token_prefix(i, j);
        }
    }
}

/// A token that stands at the start of another is that token.
proof fn lemma_token_prefix(i: nat, j: nat)
    requires
        occurs_at(block_token(i), block_token(j), 0),
    ensures
        i == j,
{
    let t = block_token(i);
    let p = block_token(j);
    reveal_strlit("C2MDNESTEDTABLEBLOCK");
    reveal_strlit("E");
    lemma_decimal_digits(i);
    lemma_decimal_digits(j);
    let a = decimal(i);
    let b = decimal(j);
    let s = t.subrange(0, p.len() as int);
    assert(forall|k: int| 0 <= k < p.len() ==> s[k] == t[k]);
    let n = b.len() as int;
    assert(p[20 + n] == 'E');
    assert(t[20 + n] == 'E') by {
        assert(s[20 + n] == t[20 + n]);
    }
    if n < a.len() {
        assert(t[20 + n] == a[n]);
    }
    assert(a.len() == b.len());
    assert forall|k: int| 0 <= k < a.len() implies a[k] == b[k] by {
        assert(s[20 + k] == t[20 + k]);
        assert(t[20 + k] == a[k] && p[20 + k] == b[k]);
    }
    assert(a =~= b);
    law_decimal_reads_back(i);
    law_decimal_reads_back(j);
}

/// A text woven of parts with fillings between them, from part `k` on.
pub open spec fn woven_from(parts: Seq<Seq<char>>, fills: Seq<Seq<char>>, k: int) -> Seq<char>
    decreases fills.len() - k,
{
    if k < 0 || k >= fills.len() {
        parts[k]
    } else {
        parts[k] + fills[k] + woven_from(parts, fills, k + 1)
    }
}

/// Where filling `k` stands in a woven text.
pub open spec fn filling_place(parts: Seq<Seq<char>>, fills: Seq<Seq<char>>, k: int) -> int
    decreases k,
{
    if k <= 0 {
        parts[0].len() as int
    } else {
        filling_place(parts, fills, k - 1) + fills[k - 1].len() + parts[k].len()
    }
}

/// The tokens of the first `n` blocks of a page.
pub open spec fn block_tokens(n: nat) -> Seq<Seq<char>> {
    Seq::new(n, |k: int| block_token((k + 1) as nat))
}

/// The texts of substitutions.
pub open spec fn block_texts(subs: Seq<(Seq<char>, Seq<char>)>) -> Seq<Seq<char>> {
    Seq::new(subs.len(), |k: int| subs[k].1)
}

/// A woven text from part `k` on is the rest of the whole.
proof fn lemma_woven_rest(parts: Seq<Seq<char>>, fills: Seq<Seq<char>>, k: int)
    requires
        parts.len() == fills.len() + 1,
        0 <= k <= fills.len(),
    ensures
        ({
            let t = woven_from(parts, fills, 0);
            let from = filling_place(parts, fills, k) - parts[k].len();
            0 <= from <= t.len() && t.skip(from) == woven_from(parts, fills, k)
        }),
    decreases k,
{
    let t = woven_from(parts, fills, 0);
    if k > 0 {
        lemma_woven_rest(parts, fills, k - 1);
        let before = filling_place(parts, fills, k - 1) - parts[k - 1].len();
        let from = filling_place(parts, fills, k) - parts[k].len();
        let rest = t.skip(before);
        assert(rest == parts[k - 1] + fills[k - 1] + woven_from(parts, fills, k));
        let n = (parts[k - 1].len() + fills[k - 1].len()) as int;
        assert(from == before + n);
        assert(rest.len() == t.len() - before);
        assert(t.skip(from) =~= rest.skip(n));
        assert(rest.skip(n) =~= woven_from(parts, fills, k));
    } else {
        assert(t.skip(0) =~= t);
    }
}

proof fn lemma_places_grow(parts: Seq<Seq<char>>, fills: Seq<Seq<char>>, i: int, j: int)
    requires
        parts.len() == fills.len() + 1,
        0 <= i < j < fills.len(),
        forall|k: int| 0 <= k < fills.len() ==> (#[trigger] fills[k]).len() > 0,
    ensures
        filling_place(parts, fills, i) < filling_place(parts, fills, j),
    decreases j,
{
    assert(fills[j - 1].len() > 0);
    if i < j - 1 {
        lemma_places_grow(parts, fills, i, j - 1);
    }
}

/// The search for a token at a position finds the one that stands there.
proof fn lemma_token_at(
    t: Seq<char>,
    subs: Seq<(Seq<char>, Seq<char>)>,
    i: int,
    from: int,
    found: int,
)
    requires
        0 <= from <= found <= subs.len(),
        forall|k: int| from <= k < found ==> !occurs_at(t, (#[trigger] subs[k]).0, i),
        found < subs.len() ==> subs[found].0.len() > 0 && occurs_at(t, subs[found].0, i),
    ensures
        token_at(t, subs, i, from) == if found < subs.len() {
            Some(found)
        } else {
            None
        },
    decreases found - from,
{
    if from < found {
        assert(!occurs_at(t, subs[from].0, i));
        lemma_token_at(t, subs, i, from + 1, found);
    }
}

/// A run of characters at which no token stands is copied.
proof fn lemma_substituted_copies(
    t: Seq<char>,
    subs: Seq<(Seq<char>, Seq<char>)>,
    i: int,
    to: int,
)
    requires
        0 <= i <= to <= t.len(),
        forall|j: int, k: int|
            i <= j < to && 0 <= k < subs.len() ==> !#[trigger] occurs_at(t, subs[k].0, j),
    ensures
        substituted_from(t, subs, i) == t.subrange(i, to) + substituted_from(t, subs, to),
    decreases to - i,
{
    if i < to {
        assert forall|k: int| 0 <= k < subs.len() implies !occurs_at(
            t,
            (#[trigger] subs[k]).0,
            i,
        ) by {}
        lemma_token_at(t, subs, i, 0, subs.len() as int);
        lemma_substituted_copies(t, subs, i + 1, to);
        assert(seq![t[i]] + (t.subrange(i + 1, to) + substituted_from(t, subs, to))
            =~= t.subrange(i, to) + substituted_from(t, subs, to));
    } else {
        assert(t.subrange(i, to) + substituted_from(t, subs, to) =~= substituted_from(
            t,
            subs,
            to,
        ));
    }
}

/// Whether substitutions have the tokens of the blocks of a page, and these
/// stand in a woven text as its fillings and nowhere else.
pub open spec fn tokens_stand_once(
    parts: Seq<Seq<char>>,
    subs: Seq<(Seq<char>, Seq<char>)>,
) -> bool {
    let tokens = block_tokens(subs.len());
    &&& parts.len() == subs.len() + 1
    &&& forall|k: int| 0 <= k < subs.len() ==> (#[trigger] subs[k]).0 == tokens[k]
    &&& forall|i: int, k: int|
        0 <= k < subs.len() && #[trigger] occurs_at(woven_from(parts, tokens, 0), tokens[k], i)
            ==> i == filling_place(parts, tokens, k)
}

proof fn lemma_blocks_from(
    parts: Seq<Seq<char>>,
    subs: Seq<(Seq<char>, Seq<char>)>,
    k: int,
)
    requires
        tokens_stand_once(parts, subs),
        0 <= k <= subs.len(),
    ensures
        ({
            let tokens = block_tokens(subs.len());
            substituted_from(
                woven_from(parts, tokens, 0),
                subs,
                filling_place(parts, tokens, k) - parts[k].len(),
            ) == woven_from(parts, block_texts(subs), k)
        }),
    decreases subs.len() - k,
{
    let tokens = block_tokens(subs.len());
    let t = woven_from(parts, tokens, 0);
    let from = filling_place(parts, tokens, k) - parts[k].len();
    let to = filling_place(parts, tokens, k);
    reveal_strlit("C2MDNESTEDTABLEBLOCK");
    assert(forall|n: int| 0 <= n < tokens.len() ==> (#[trigger] tokens[n]).len() > 0);
    lemma_woven_rest(parts, tokens, k);
    let rest = t.skip(from);
    assert forall|j: int, n: int| from <= j < to && 0 <= n < subs.len() implies !#[trigger] occurs_at(
        t,
        subs[n].0,
        j,
    ) by {
        if occurs_at(t, subs[n].0, j) {
            assert(subs[n].0 == tokens[n]);
            assert(occurs_at(t, tokens[n], j));
            if n < k {
                lemma_places_before(parts, tokens, n, k);
            } else if k < n {
                lemma_places_grow(parts, tokens, k, n);
            }
        }
    }
    if k == subs.len() {
        assert(rest == parts[k]);
        assert(to == t.len());
        lemma_substituted_copies(t, subs, from, to);
        assert(t.subrange(from, to) =~= parts[k]);
        assert(substituted_from(t, subs, to) =~= Seq::empty());
        assert(substituted_from(t, subs, from) =~= parts[k]);
    } else {
        assert(rest == parts[k] + tokens[k] + woven_from(parts, tokens, k + 1));
        lemma_substituted_copies(t, subs, from, to);
        assert(t.subrange(from, to) =~= parts[k]) by {
            assert(t.subrange(from, to) =~= rest.subrange(0, to - from));
        }
        assert(occurs_at(t, tokens[k], to)) by {
            assert(t.subrange(to, to + tokens[k].len()) =~= rest.subrange(
                to - from,
                to - from + tokens[k].len(),
            ));
            assert(rest.subrange(to - from, to - from + tokens[k].len()) =~= tokens[k]);
        }
        assert forall|n: int| 0 <= n < k implies !occurs_at(t, (#[trigger] subs[n]).0, to) by {
            if occurs_at(t, subs[n].0, to) {
                assert(subs[n].0 == tokens[n]);
                assert(occurs_at(t, tokens[n], to));
                lemma_places_grow(parts, tokens, n, k);
            }
        }
        assert(subs[k].0 == tokens[k]);
        lemma_token_at(t, subs, to, 0, k);
        lemma_blocks_from(parts, subs, k + 1);
        let next = to + tokens[k].len();
        assert(filling_place(parts, tokens, k + 1) - parts[k + 1].len() == next);
        assert(substituted_from(t, subs, to) == subs[k].1 + substituted_from(t, subs, next));
        assert(parts[k] + (subs[k].1 + woven_from(parts, block_texts(subs), k + 1)) =~= parts[k]
            + block_texts(subs)[k] + woven_from(parts, block_texts(subs), k + 1));
    }
}

/// An earlier filling stands before the part in front of a later one.
proof fn lemma_places_before(parts: Seq<Seq<char>>, fills: Seq<Seq<char>>, i: int, j: int)
    requires
        parts.len() == fills.len() + 1,
        0 <= i < j <= fills.len(),
        forall|k: int| 0 <= k < fills.len() ==> (#[trigger] fills[k]).len() > 0,
    ensures
        filling_place(parts, fills, i) < filling_place(parts, fills, j) - parts[j].len(),
{
    assert(fills[j - 1].len() > 0);
    if i < j - 1 {
        lemma_places_grow(parts, fills, i, j - 1);
    }
}

/// Each block stands once, and where its token stood: a text woven with the
/// tokens becomes the same text woven with the blocks, in the same order.
pub proof fn law_blocks_stand_where_their_tables_stood(
    parts: Seq<Seq<char>>,
    subs: Seq<(Seq<char>, Seq<char>)>,
)
    requires
        tokens_stand_once(parts, subs),
    ensures
        substituted(woven_from(parts, block_tokens(subs.len()), 0), subs) == woven_from(
            parts,
            block_texts(subs),
            0,
        ),
{
    lemma_blocks_from(parts, subs, 0);
}

proof fn lemma_page_tokens(t: Seq<char>, ranges: Seq<Span>, n: int)
    ensures
        forall|k: int|
            0 <= k < tokenized(t, ranges, n).blocks.len() ==> (#[trigger] tokenized(
                t,
                ranges,
                n,
            ).blocks[k]).0 == block_token((k + 1) as nat),
    decreases n,
{
    if n > 0 {
        lemma_page_tokens(t, ranges, n - 1);
        let before = tokenized(t, ranges, n - 1).blocks;
        let after = tokenized(t, ranges, n).blocks;
        assert forall|k: int| 0 <= k < after.len() implies (#[trigger] after[k]).0 == block_token(
            (k + 1) as nat,
        ) by {
            if k < before.len() {
                assert(after[k] == before[k]);
            }
        }
    }
}

/// The blocks of a page have the tokens of their numbers, counted from one.
pub proof fn law_page_tokens_are_numbered(t: Seq<char>, k: int)
    requires
        0 <= k < page_tokenized(t).blocks.len(),
    ensures
        page_tokenized(t).blocks[k].0 == block_token((k + 1) as nat),
{
    lemma_page_tokens(t, table_ranges(t), table_ranges(t).len() as int);
}

// ── Conversion ─────────────────────────────────────────────────────

/// The Markdown of a page in default mode.
pub open spec fn default_markdown(html: Seq<char>) -> Seq<char> {
    cleaned(raw_markdown(compatible_promoted(headings_linked(html)), true))
}

/// The Markdown of a page in which every table becomes Markdown.
pub open spec fn always_markdown(html: Seq<char>) -> Seq<char> {
    let linked = headings_linked(html);
    let page = page_tokenized(linked);
    let flat = spliced(linked, table_ranges(linked), page.pieces);
    let md = cleaned(raw_markdown(rows_promoted(cells_expanded(flat)), false));
    cleaned(substituted(md, page.blocks))
}

/// The Markdown of a page.
pub open spec fn page_markdown(html: Seq<char>, tables: TableConversion) -> Seq<char> {
    match tables {
        TableConversion::Default => default_markdown(html),
        TableConversion::Always => always_markdown(html),
    }
}

/// Converts `html` to GitHub-flavoured Markdown with Confluence-specific
/// extensions.
pub fn convert_to_md(html: &str, options: ConvertOptions) -> (r: String)
    ensures
        r@ == page_markdown(html@, options.table_conversion),
{
    let linked = rewrite_internal_heading_links(html);
    match options.table_conversion {
        TableConversion::Default => {
            let promoted = promote_markdown_compatible_tables_to_thead(&linked);
            post_process(&convert_html(&promoted, true))
        },
        TableConversion::Always => {
            let (flat, blocks) = preprocess_nested_tables_always(&linked);
            let expanded = expand_merged_cells(&flat);
            let promoted = promote_first_row_to_thead(&expanded);
            let md = post_process(&convert_html(&promoted, false));
            post_process(&substitute(&md, &blocks))
        },
    }
}

/// In either mode the Markdown of a page starts with no white space, ends in
/// exactly one line feed, and has no three line feeds in a row.
pub proof fn law_page_markdown_is_clean(html: Seq<char>, tables: TableConversion)
    ensures
        is_clean(page_markdown(html, tables)),
{
    match tables {
        TableConversion::Default => {
            law_cleaned_is_clean(
                raw_markdown(compatible_promoted(headings_linked(html)), true),
            );
        },
        TableConversion::Always => {
            let linked = headings_linked(html);
            let page = page_tokenized(linked);
            let flat = spliced(linked, table_ranges(linked), page.pieces);
            let md = cleaned(raw_markdown(rows_promoted(cells_expanded(flat)), false));
            law_cleaned_is_clean(substituted(md, page.blocks));
        },
    }
}

/// A page without tables goes to the converter with only its links rewritten,
/// in either mode.
pub proof fn law_pages_without_tables_are_not_prepared(t: Seq<char>)
    requires
        table_ranges(t).len() == 0,
    ensures
        compatible_promoted(t) == t,
        spliced(t, table_ranges(t), page_tokenized(t).pieces) == t,
        page_tokenized(t).blocks.len() == 0,
{
    assert(compatible_promoted(t) =~= t);
    assert(spliced(t, table_ranges(t), page_tokenized(t).pieces) =~= t);
}

} // verus!
