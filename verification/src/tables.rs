//! Tables in HTML: finding them, taking nested ones out, and preparing them
//! for Markdown.

use vstd::prelude::*;
use vstd::string::StringExecFns;

use crate::pattern::{
    all_matches, find_all, fits, found_views, spans_placed, well_placed, whole_span, whole_text,
    Span,
};
use crate::text::{
    chars_of, decimal, has_prefix, law_decimal_reads_back, lemma_decimal_digits, occurs_at, part,
    push_decimal, push_part, replaced, replaced_from, starts_with, trim_start, trimmed_start, white,
};

verus! {

/// The pattern of an opening or closing table tag.
pub const TABLE_TAG: &'static str = r"(?is)</?table\b[^>]*>";

// ── Table tags ─────────────────────────────────────────────────────

/// An opening or closing table tag.
#[derive(Debug, Clone, Copy, PartialEq, Eq, Structural)]
pub struct TableTag {
    pub start: usize,
    pub end: usize,
    pub close: bool,
}

/// Whether a tag is a closing one.
pub open spec fn is_closing(tag: Seq<char>) -> bool {
    has_prefix(trimmed_start(tag, white()), "</"@)
}

/// Whether a tag is a closing one.
pub fn is_close_table_tag(tag: &str) -> (r: bool)
    ensures
        r == is_closing(tag@),
{
    starts_with(&trim_start(tag), "</")
}

/// The position behind the last of the tags.
pub open spec fn tags_end(tags: Seq<TableTag>) -> int {
    if tags.len() == 0 {
        0
    } else {
        tags.last().end as int
    }
}

/// The tags among the first `n` matches. A tag starts with `<` and lies behind
/// the tags before it.
pub open spec fn tags_among(t: Seq<char>, ms: Seq<Seq<Option<Span>>>, n: int) -> Seq<TableTag>
    decreases n,
{
    if n <= 0 {
        Seq::empty()
    } else {
        let before = tags_among(t, ms, n - 1);
        let s = whole_span(ms[n - 1]);
        if tags_end(before) <= s.start && s.start < s.end && s.end <= t.len() && t[s.start as int]
            == '<' {
            before.push(
                TableTag { start: s.start, end: s.end, close: is_closing(whole_text(t, ms[n - 1])) },
            )
        } else {
            before
        }
    }
}

/// The table tags of a text, in order.
pub open spec fn table_tags(t: Seq<char>) -> Seq<TableTag> {
    let ms = all_matches(TABLE_TAG@, t);
    tags_among(t, ms, ms.len() as int)
}

/// What holds of the tags of a text.
pub open spec fn tags_placed(t: Seq<char>, tags: Seq<TableTag>) -> bool {
    &&& forall|i: int|
        0 <= i < tags.len() ==> (#[trigger] tags[i]).start < tags[i].end <= t.len()
            && t[tags[i].start as int] == '<'
    &&& forall|i: int, j: int|
        0 <= i < j < tags.len() ==> (#[trigger] tags[i]).end <= (#[trigger] tags[j]).start
}

proof fn lemma_tags_placed(t: Seq<char>, ms: Seq<Seq<Option<Span>>>, n: int)
    ensures
        tags_placed(t, tags_among(t, ms, n)),
    decreases n,
{
    if n > 0 {
        lemma_tags_placed(t, ms, n - 1);
        let before = tags_among(t, ms, n - 1);
        let tags = tags_among(t, ms, n);
        assert forall|i: int, j: int| 0 <= i < j < tags.len() implies (#[trigger] tags[i]).end <= (
        #[trigger] tags[j]).start by {
            if j == before.len() && i < before.len() - 1 {
                assert(before[i].end <= before[before.len() - 1].start);
            }
        }
    }
}

/// The table tags of a text, in order.
pub fn find_table_tags(html: &str) -> (r: Vec<TableTag>)
    ensures
        r@ == table_tags(html@),
        tags_placed(html@, r@),
{
    let t = chars_of(html);
    let ms = find_all(TABLE_TAG, html);
    let ghost found = found_views(ms@);
    let mut tags: Vec<TableTag> = Vec::new();
    let mut last: usize = 0;
    let mut i: usize = 0;
    while i < ms.len()
        invariant
            t@ == html@,
            found == found_views(ms@),
            well_placed(t@.len(), found),
            i <= ms.len(),
            tags@ == tags_among(t@, found, i as int),
            last == tags_end(tags@),
        decreases ms.len() - i,
    {
        assert(fits(t@.len(), found[i as int]));
        let s = ms[i].span();
        if last <= s.start && s.start < s.end && t[s.start] == '<' {
            let close = is_close_table_tag(&ms[i].whole(&t));
            tags.push(TableTag { start: s.start, end: s.end, close });
            last = s.end;
        }
        i += 1;
    }
    proof {
        lemma_tags_placed(t@, found, found.len() as int);
    }
    tags
}

// ── Top-level tables ───────────────────────────────────────────────

/// A scan over table tags: the complete top-level tables so far, how many
/// tables are open, and where the outermost open one starts.
pub struct Scan {
    pub ranges: Seq<Span>,
    pub depth: int,
    pub start: usize,
}

/// The scan over the first `n` tags. A closing tag without an open table is
/// passed over.
pub open spec fn scanned(tags: Seq<TableTag>, n: int) -> Scan
    decreases n,
{
    if n <= 0 {
        Scan { ranges: Seq::empty(), depth: 0, start: 0 }
    } else {
        let s = scanned(tags, n - 1);
        let tag = tags[n - 1];
        if !tag.close {
            Scan {
                ranges: s.ranges,
                depth: s.depth + 1,
                start: if s.depth == 0 {
                    tag.start
                } else {
                    s.start
                },
            }
        } else if s.depth == 0 {
            s
        } else if s.depth == 1 {
            Scan {
                ranges: s.ranges.push(Span { start: s.start, end: tag.end }),
                depth: 0,
                start: s.start,
            }
        } else {
            Scan { ranges: s.ranges, depth: s.depth - 1, start: s.start }
        }
    }
}

/// The complete top-level tables of a text.
pub open spec fn table_ranges(t: Seq<char>) -> Seq<Span> {
    scanned(table_tags(t), table_tags(t).len() as int).ranges
}

proof fn lemma_scanned_placed(t: Seq<char>, tags: Seq<TableTag>, n: int)
    requires
        tags_placed(t, tags),
        0 <= n <= tags.len(),
    ensures
        ({
            let s = scanned(tags, n);
            &&& 0 <= s.depth <= n
            &&& spans_placed(t.len(), s.ranges)
            &&& forall|i: int|
                0 <= i < s.ranges.len() ==> (#[trigger] s.ranges[i]).start < s.ranges[i].end
            &&& s.ranges.len() > 0 ==> n > 0 && s.ranges.last().end <= tags[n - 1].end
            &&& s.depth > 0 ==> n > 0 && s.start <= tags[n - 1].start
            &&& s.depth > 0 && s.ranges.len() > 0 ==> s.ranges.last().end <= s.start
        }),
    decreases n,
{
    if n > 0 {
        lemma_scanned_placed(t, tags, n - 1);
        let before = scanned(tags, n - 1);
        let s = scanned(tags, n);
        if n >= 2 {
            assert(tags[n - 2].end <= tags[n - 1].start);
        }
        assert(tags[n - 1].start < tags[n - 1].end <= t.len());
        if n >= 2 {
            assert(tags[n - 2].start < tags[n - 2].end);
        }
        assert forall|i: int, j: int| 0 <= i < j < s.ranges.len() implies (
        #[trigger] s.ranges[i]).end <= (#[trigger] s.ranges[j]).start by {
            if j == before.ranges.len() {
                if i < before.ranges.len() - 1 {
                    assert(before.ranges[i].end <= before.ranges[before.ranges.len() - 1].start);
                }
            }
        }
    }
}

/// The top-level tables of a text lie in it one behind the other, and none is
/// empty.
pub proof fn law_table_ranges_are_disjoint(t: Seq<char>)
    ensures
        spans_placed(t.len(), table_ranges(t)),
        forall|i: int|
            0 <= i < table_ranges(t).len() ==> (#[trigger] table_ranges(t)[i]).start
                < table_ranges(t)[i].end,
{
    let ms = all_matches(TABLE_TAG@, t);
    lemma_tags_placed(t, ms, ms.len() as int);
    lemma_scanned_placed(t, table_tags(t), table_tags(t).len() as int);
}

/// The complete top-level tables among table tags.
pub fn top_level_ranges(tags: &Vec<TableTag>) -> (r: Vec<Span>)
    ensures
        r@ == scanned(tags@, tags@.len() as int).ranges,
{
    let mut ranges: Vec<Span> = Vec::new();
    let mut depth: usize = 0;
    let mut start: usize = 0;
    let mut i: usize = 0;
    while i < tags.len()
        invariant
            i <= tags.len(),
            ranges@ == scanned(tags@, i as int).ranges,
            depth == scanned(tags@, i as int).depth,
            start == scanned(tags@, i as int).start,
            depth <= i,
        decreases tags.len() - i,
    {
        let tag = tags[i];
        if !tag.close {
            if depth == 0 {
                start = tag.start;
            }
            depth += 1;
        } else if depth > 0 {
            depth -= 1;
            if depth == 0 {
                ranges.push(Span { start, end: tag.end });
            }
        }
        i += 1;
    }
    ranges
}

/// Finds all complete top-level `<table>...</table>` ranges.
pub fn find_top_level_table_ranges(html: &str) -> (r: Vec<Span>)
    ensures
        r@ == table_ranges(html@),
        spans_placed(html@.len(), r@),
{
    proof {
        law_table_ranges_are_disjoint(html@);
    }
    top_level_ranges(&find_table_tags(html))
}

// ── Nested tables ──────────────────────────────────────────────────

/// The first complete table inside a table, searched from tag `i` on, with
/// `depth` tables open and, where two or more are, the second of them
/// starting at `start`.
pub open spec fn nested_from(tags: Seq<TableTag>, i: int, depth: int, start: usize) -> Option<Span>
    decreases tags.len() - i,
{
    if i < 0 || i >= tags.len() {
        None
    } else if !tags[i].close {
        nested_from(
            tags,
            i + 1,
            depth + 1,
            if depth == 1 {
                tags[i].start
            } else {
                start
            },
        )
    } else if depth == 2 {
        Some(Span { start, end: tags[i].end })
    } else {
        nested_from(
            tags,
            i + 1,
            if depth > 0 {
                depth - 1
            } else {
                0
            },
            start,
        )
    }
}

/// The first complete table directly inside the table that a text holds.
pub open spec fn nested_range(t: Seq<char>) -> Option<Span> {
    nested_from(table_tags(t), 0, 0, 0)
}

/// How many `<` a text holds.
pub open spec fn angles(t: Seq<char>) -> nat
    decreases t.len(),
{
    if t.len() == 0 {
        0
    } else {
        angles(t.drop_last()) + if t.last() == '<' {
            1nat
        } else {
            0nat
        }
    }
}

proof fn lemma_angles_sum(a: Seq<char>, b: Seq<char>)
    ensures
        angles(a + b) == angles(a) + angles(b),
    decreases b.len(),
{
    if b.len() == 0 {
        assert(a + b =~= a);
    } else {
        lemma_angles_sum(a, b.drop_last());
        assert((a + b).drop_last() =~= a + b.drop_last());
    }
}

pub proof fn lemma_angles_bound(t: Seq<char>)
    ensures
        angles(t) <= t.len(),
    decreases t.len(),
{
    if t.len() > 0 {
        lemma_angles_bound(t.drop_last());
    }
}

proof fn lemma_angles_at(t: Seq<char>, i: int)
    requires
        0 <= i < t.len(),
        t[i] == '<',
    ensures
        angles(t) >= 1,
{
    let a = t.take(i + 1);
    assert(a + t.skip(i + 1) =~= t);
    lemma_angles_sum(a, t.skip(i + 1));
}

/// A nested table lies in the text, starts with `<`, and an opening tag
/// stands before it.
proof fn lemma_nested_from(t: Seq<char>, tags: Seq<TableTag>, i: int, depth: int, start: usize)
    requires
        tags_placed(t, tags),
        0 <= i,
        0 <= depth <= i,
        depth >= 1 ==> 0 < i <= tags.len(),
        depth >= 2 ==> 0 < start < t.len() && t[start as int] == '<' && tags[0].end <= start
            && i >= 2 && start <= tags[i - 1].start,
    ensures
        nested_from(tags, i, depth, start) matches Some(s) ==> tags.len() > 0 && tags[0].end
            <= s.start < s.end <= t.len() && t[s.start as int] == '<',
    decreases tags.len() - i,
{
    if i < tags.len() {
        if i > 0 {
            assert(tags[0].end <= tags[i].start);
            assert(tags[i - 1].end <= tags[i].start);
        }
        assert(tags[0].start < tags[0].end);
        if !tags[i].close {
            lemma_nested_from(
                t,
                tags,
                i + 1,
                depth + 1,
                if depth == 1 {
                    tags[i].start
                } else {
                    start
                },
            );
        } else if depth != 2 {
            lemma_nested_from(
                t,
                tags,
                i + 1,
                if depth > 0 {
                    depth - 1
                } else {
                    0
                },
                start,
            );
        }
    }
}

/// Taking a nested table out, or looking at it alone, leaves fewer `<`.
proof fn lemma_nested_shrinks(t: Seq<char>, marker: Seq<char>)
    requires
        angles(marker) == 0,
    ensures
        nested_range(t) matches Some(s) ==> {
            let inner = t.subrange(s.start as int, s.end as int);
            let rest = t.take(s.start as int) + marker + t.skip(s.end as int);
            &&& s.start < s.end <= t.len()
            &&& angles(inner) >= 1
            &&& angles(rest) >= 1
            &&& angles(inner) + angles(rest) == angles(t)
        },
{
    let ms = all_matches(TABLE_TAG@, t);
    lemma_tags_placed(t, ms, ms.len() as int);
    lemma_nested_from(t, table_tags(t), 0, 0, 0);
    if let Some(s) = nested_range(t) {
        let a = t.take(s.start as int);
        let inner = t.subrange(s.start as int, s.end as int);
        let c = t.skip(s.end as int);
        assert(a + inner + c =~= t);
        lemma_angles_sum(a + inner, c);
        lemma_angles_sum(a, inner);
        lemma_angles_sum(a + marker, c);
        lemma_angles_sum(a, marker);
        assert(inner[0] == '<');
        lemma_angles_at(inner, 0);
        let first = table_tags(t)[0];
        assert(a[first.start as int] == '<');
        lemma_angles_at(a, first.start as int);
    }
}

/// The first complete table inside a table, among table tags.
pub fn nested_among(tags: &Vec<TableTag>) -> (r: Option<Span>)
    ensures
        r == nested_from(tags@, 0, 0, 0),
{
    let mut depth: usize = 0;
    let mut start: usize = 0;
    let mut i: usize = 0;
    while i < tags.len()
        invariant
            i <= tags.len(),
            depth <= i,
            nested_from(tags@, 0, 0, 0) == nested_from(tags@, i as int, depth as int, start),
        decreases tags.len() - i,
    {
        let tag = tags[i];
        if !tag.close {
            if depth == 1 {
                start = tag.start;
            }
            depth += 1;
        } else if depth == 2 {
            return Some(Span { start, end: tag.end });
        } else if depth > 0 {
            depth -= 1;
        }
        i += 1;
    }
    None
}

/// Finds the first direct nested `<table>...</table>` range inside a table.
pub fn first_direct_nested_table_range(table_html: &str) -> (r: Option<Span>)
    ensures
        r == nested_range(table_html@),
        r matches Some(s) ==> s.start < s.end <= table_html@.len(),
{
    proof {
        reveal_strlit("");
        assert(angles(""@) == 0);
        lemma_nested_shrinks(table_html@, ""@);
    }
    nested_among(&find_table_tags(table_html))
}

/// The marker that stands for the table taken out as number `n`.
pub open spec fn marker(n: nat) -> Seq<char> {
    "(*"@ + decimal(n) + ")"@
}

/// A table without the tables nested in it, and those tables: each with its
/// marker, none with a table nested in it.
pub struct Extraction {
    pub outer: Seq<char>,
    pub tables: Seq<(Seq<char>, Seq<char>)>,
    /// The number of the last marker used.
    pub count: nat,
}

proof fn lemma_no_angles(t: Seq<char>)
    requires
        forall|i: int| 0 <= i < t.len() ==> (#[trigger] t[i]) != '<',
    ensures
        angles(t) == 0,
    decreases t.len(),
{
    if t.len() > 0 {
        assert(t[t.len() - 1] != '<');
        lemma_no_angles(t.drop_last());
    }
}

proof fn lemma_marker_has_no_angle(n: nat)
    ensures
        angles(marker(n)) == 0,
{
    reveal_strlit("(*");
    reveal_strlit(")");
    lemma_decimal_digits(n);
    lemma_no_angles(marker(n));
}

/// A table with its nested tables taken out, from the first to the last. What
/// is nested deeper is taken out of a nested table before it gets its marker.
pub open spec fn extracted(t: Seq<char>, count: nat) -> Extraction
    decreases angles(t),
    when true
    via extracted_decreases
{
    match nested_range(t) {
        None => Extraction { outer: t, tables: Seq::empty(), count },
        Some(s) => {
            let inner = extracted(t.subrange(s.start as int, s.end as int), count);
            let m = marker(inner.count + 1);
            let rest = extracted(
                t.take(s.start as int) + m + t.skip(s.end as int),
                inner.count + 1,
            );
            Extraction {
                outer: rest.outer,
                tables: seq![(m, inner.outer)] + inner.tables + rest.tables,
                count: rest.count,
            }
        },
    }
}

#[via_fn]
proof fn extracted_decreases(t: Seq<char>, count: nat) {
    if let Some(s) = nested_range(t) {
        reveal_strlit("");
        lemma_nested_shrinks(t, ""@);
        assert forall|n: nat|
            angles(t.take(s.start as int) + #[trigger] marker(n) + t.skip(s.end as int)) < angles(
                t,
            ) by {
            lemma_marker_has_no_angle(n);
            lemma_nested_shrinks(t, marker(n));
        }
    }
}

/// A table that was nested in another, and the marker that stands in its
/// place.
#[derive(Debug)]
pub struct NestedTable {
    pub marker: String,
    pub html: String,
}

/// The markers and texts of a list of tables.
pub open spec fn nested_views(v: Seq<NestedTable>) -> Seq<(Seq<char>, Seq<char>)> {
    Seq::new(v.len(), |i: int| (v[i].marker@, v[i].html@))
}

/// Extracts nested tables from a single table.
///
/// Returns the outer table, in which markers stand for the nested tables, and
/// the nested tables with their markers in extraction order, themselves
/// without nested tables.
pub fn extract_nested_tables_from_table(table_html: &str, marker_counter: &mut usize) -> (r: (
    String,
    Vec<NestedTable>,
))
    requires
        *old(marker_counter) + angles(table_html@) <= usize::MAX,
    ensures
        ({
            let e = extracted(table_html@, *old(marker_counter) as nat);
            &&& r.0@ == e.outer
            &&& nested_views(r.1@) == e.tables
            &&& *final(marker_counter) == e.count
        }),
        *old(marker_counter) <= *final(marker_counter) <= *old(marker_counter) + angles(
            table_html@,
        ),
        angles(table_html@) >= 1 ==> *final(marker_counter) < *old(marker_counter) + angles(
            table_html@,
        ),
    decreases angles(table_html@),
{
    let ghost count = *marker_counter as nat;
    let ghost e = extracted(table_html@, count);
    let mut outer: String = table_html.to_owned();
    let mut tables: Vec<NestedTable> = Vec::new();
    assert(nested_views(tables@) + e.tables =~= e.tables);
    loop
        invariant
            count + angles(table_html@) <= usize::MAX,
            e == extracted(table_html@, count),
            e.outer == extracted(outer@, *marker_counter as nat).outer,
            e.count == extracted(outer@, *marker_counter as nat).count,
            e.tables == nested_views(tables@) + extracted(
                outer@,
                *marker_counter as nat,
            ).tables,
            count <= *marker_counter,
            *marker_counter + angles(outer@) <= count + angles(table_html@),
            angles(table_html@) >= 1 ==> angles(outer@) >= 1,
            count == *old(marker_counter),
        decreases angles(outer@),
    {
        let s = match first_direct_nested_table_range(&outer) {
            Some(s) => s,
            None => {
                assert(e.tables =~= nested_views(tables@));
                return (outer, tables);
            },
        };
        let ghost before = nested_views(tables@);
        let ghost cur = extracted(outer@, *marker_counter as nat);
        proof {
            reveal_strlit("");
            lemma_nested_shrinks(outer@, ""@);
        }
        let t = chars_of(&outer);
        let inner = part(&t, s.start, s.end);
        let (inner_outer, inner_tables) = extract_nested_tables_from_table(&inner, marker_counter);
        *marker_counter = *marker_counter + 1;
        let mut m: String = "(*".to_owned();
        push_decimal(&mut m, *marker_counter);
        m.append(")");
        proof {
            lemma_marker_has_no_angle(*marker_counter as nat);
            lemma_nested_shrinks(outer@, m@);
        }
        let mut rest: String = String::new();
        push_part(&mut rest, &t, 0, s.start);
        rest.append(&m);
        push_part(&mut rest, &t, s.end, t.len());
        assert(rest@ =~= outer@.take(s.start as int) + m@ + outer@.skip(s.end as int));
        let ghost first = (m@, inner_outer@);
        let ghost inner_views = nested_views(inner_tables@);
        tables.push(NestedTable { marker: m, html: inner_outer });
        assert(nested_views(tables@) =~= before.push(first));
        let ghost start = tables@;
        let mut inner_tables = inner_tables;
        tables.append(&mut inner_tables);
        proof {
            assert(nested_views(tables@) =~= before.push(first) + inner_views);
            let after = extracted(rest@, *marker_counter as nat);
            assert(cur.tables == seq![first] + inner_views + after.tables);
            assert(before + (seq![first] + inner_views + after.tables) =~= nested_views(tables@)
                + after.tables);
        }
        outer = rest;
    }
}

/// Where nested tables have been taken out, none is left: neither in the
/// outer table nor in one that was taken out.
pub proof fn law_extraction_leaves_no_nested_table(t: Seq<char>, count: nat)
    ensures
        nested_range(extracted(t, count).outer) is None,
        forall|i: int|
            0 <= i < extracted(t, count).tables.len() ==> nested_range(
                (#[trigger] extracted(t, count).tables[i]).1,
            ) is None,
    decreases angles(t),
{
    if let Some(s) = nested_range(t) {
        reveal_strlit("");
        lemma_nested_shrinks(t, ""@);
        let inner_t = t.subrange(s.start as int, s.end as int);
        let inner = extracted(inner_t, count);
        let m = marker(inner.count + 1);
        lemma_marker_has_no_angle(inner.count + 1);
        lemma_nested_shrinks(t, m);
        let rest_t = t.take(s.start as int) + m + t.skip(s.end as int);
        law_extraction_leaves_no_nested_table(inner_t, count);
        law_extraction_leaves_no_nested_table(rest_t, inner.count + 1);
        let rest = extracted(rest_t, inner.count + 1);
        let all = extracted(t, count).tables;
        assert(all == seq![(m, inner.outer)] + inner.tables + rest.tables);
        assert forall|i: int| 0 <= i < all.len() implies nested_range((#[trigger] all[i]).1) is None by {
            if 1 <= i < 1 + inner.tables.len() {
                assert(all[i] == inner.tables[i - 1]);
            } else if i >= 1 + inner.tables.len() {
                assert(all[i] == rest.tables[i - 1 - inner.tables.len()]);
            }
        }
    }
}

proof fn lemma_marker_injective(a: nat, b: nat)
    requires
        marker(a) == marker(b),
    ensures
        a == b,
{
    reveal_strlit("(*");
    reveal_strlit(")");
    let x = marker(a);
    let y = marker(b);
    assert(decimal(a) =~= x.subrange(2, x.len() - 1));
    assert(decimal(b) =~= y.subrange(2, y.len() - 1));
    law_decimal_reads_back(a);
    law_decimal_reads_back(b);
}

/// The number of the marker of an extracted table.
spec fn numbered_between(m: Seq<char>, low: nat, high: nat) -> bool {
    exists|k: nat| low < k <= high && m == #[trigger] marker(k)
}

proof fn lemma_markers(t: Seq<char>, count: nat)
    ensures
        extracted(t, count).count == count + extracted(t, count).tables.len(),
        forall|i: int|
            0 <= i < extracted(t, count).tables.len() ==> numbered_between(
                (#[trigger] extracted(t, count).tables[i]).0,
                count,
                extracted(t, count).count,
            ),
        forall|i: int, j: int|
            0 <= i < j < extracted(t, count).tables.len() ==> (#[trigger] extracted(
                t,
                count,
            ).tables[i]).0 != (#[trigger] extracted(t, count).tables[j]).0,
    decreases angles(t),
{
    if let Some(s) = nested_range(t) {
        reveal_strlit("");
        lemma_nested_shrinks(t, ""@);
        let inner_t = t.subrange(s.start as int, s.end as int);
        let inner = extracted(inner_t, count);
        let m = marker(inner.count + 1);
        lemma_marker_has_no_angle(inner.count + 1);
        lemma_nested_shrinks(t, m);
        let rest_t = t.take(s.start as int) + m + t.skip(s.end as int);
        lemma_markers(inner_t, count);
        lemma_markers(rest_t, inner.count + 1);
        let rest = extracted(rest_t, inner.count + 1);
        let e = extracted(t, count);
        let all = e.tables;
        let n = inner.tables.len() as int;
        assert(all == seq![(m, inner.outer)] + inner.tables + rest.tables);
        assert forall|i: int| 0 <= i < all.len() implies numbered_between(
            (#[trigger] all[i]).0,
            if i == 0 {
                inner.count
            } else if i <= n {
                count
            } else {
                inner.count + 1
            },
            if i == 0 {
                inner.count + 1
            } else if i <= n {
                inner.count
            } else {
                e.count
            },
        ) by {
            if i == 0 {
                assert(all[0].0 == marker(inner.count + 1));
            } else if i <= n {
                assert(all[i] == inner.tables[i - 1]);
            } else {
                assert(all[i] == rest.tables[i - 1 - n]);
            }
        }
        assert forall|i: int| 0 <= i < all.len() implies numbered_between(
            (#[trigger] all[i]).0,
            count,
            e.count,
        ) by {
            let k = choose|k: nat|
                count < k <= e.count && all[i].0 == #[trigger] marker(k);
        }
        assert forall|i: int, j: int| 0 <= i < j < all.len() implies (#[trigger] all[i]).0 != (
        #[trigger] all[j]).0 by {
            if all[i].0 == all[j].0 {
                if 1 <= i && j <= n {
                    assert(all[i] == inner.tables[i - 1] && all[j] == inner.tables[j - 1]);
                } else if i > n {
                    assert(all[i] == rest.tables[i - 1 - n] && all[j] == rest.tables[j - 1 - n]);
                } else {
                    let a = choose|k: nat|
                        (if i == 0 { inner.count } else { count }) < k <= (if i == 0 {
                            inner.count + 1
                        } else {
                            inner.count
                        }) && all[i].0 == #[trigger] marker(k);
                    let b = choose|k: nat|
                        (if j <= n { count } else { inner.count + 1 }) < k <= (if j <= n {
                            inner.count
                        } else {
                            e.count
                        }) && all[j].0 == #[trigger] marker(k);
                    lemma_marker_injective(a, b);
                }
            }
        }
    }
}

/// Every nested table gets a marker of its own, and the markers are counted
/// on from the given number.
pub proof fn law_markers_are_unique(t: Seq<char>, count: nat)
    ensures
        extracted(t, count).count == count + extracted(t, count).tables.len(),
        forall|i: int, j: int|
            0 <= i < j < extracted(t, count).tables.len() ==> (#[trigger] extracted(
                t,
                count,
            ).tables[i]).0 != (#[trigger] extracted(t, count).tables[j]).0,
{
    lemma_markers(t, count);
}

// ── Putting nested tables back ─────────────────────────────────────

/// The first table, from number `i` on, that has the marker with number `n`.
pub open spec fn table_for(tables: Seq<(Seq<char>, Seq<char>)>, n: nat, i: int) -> Seq<char>
    decreases tables.len() - i,
{
    if i < 0 || i >= tables.len() {
        Seq::empty()
    } else if tables[i].0 == marker(n) {
        tables[i].1
    } else {
        table_for(tables, n, i + 1)
    }
}

/// A text with the markers above `lo`, up to `hi`, replaced by what `h` gives
/// for their numbers, the last marker first.
pub open spec fn put_back(x: Seq<char>, h: spec_fn(nat) -> Seq<char>, lo: nat, hi: nat) -> Seq<char>
    decreases hi,
{
    if hi <= lo {
        x
    } else {
        put_back(replaced(x, marker(hi), h(hi)), h, lo, (hi - 1) as nat)
    }
}

proof fn lemma_put_back_split(
    x: Seq<char>,
    h: spec_fn(nat) -> Seq<char>,
    lo: nat,
    mid: nat,
    hi: nat,
)
    requires
        lo <= mid <= hi,
    ensures
        put_back(x, h, lo, hi) == put_back(put_back(x, h, mid, hi), h, lo, mid),
    decreases hi,
{
    if mid < hi {
        lemma_put_back_split(replaced(x, marker(hi), h(hi)), h, lo, mid, (hi - 1) as nat);
    }
}

/// Whether no marker above `lo`, up to `hi`, stands in a text.
pub open spec fn unmarked(x: Seq<char>, lo: nat, hi: nat) -> bool {
    forall|k: nat, i: int| lo < k <= hi ==> !#[trigger] occurs_at(x, marker(k), i)
}

/// What a marker is made of.
proof fn lemma_marker_shape(n: nat)
    ensures
        marker(n).len() == decimal(n).len() + 3,
        decimal(n).len() > 0,
        marker(n)[0] == '(',
        marker(n).last() == ')',
        forall|i: int| 1 <= i < marker(n).len() ==> (#[trigger] marker(n)[i]) != '(',
        forall|i: int| 0 <= i < marker(n).len() - 1 ==> (#[trigger] marker(n)[i]) != ')',
{
    reveal_strlit("(*");
    reveal_strlit(")");
    lemma_decimal_digits(n);
    let m = marker(n);
    let d = decimal(n);
    assert forall|i: int| 0 <= i < m.len() implies (i >= 1 ==> (#[trigger] m[i]) != '(') && (i
        < m.len() - 1 ==> m[i] != ')') by {
        if i >= 2 && i < m.len() - 1 {
            assert(m[i] == d[i - 2]);
        }
    }
}

/// A marker that stands in a text around another marker stands before it,
/// behind it, or is that marker in its place.
proof fn lemma_marker_beside(a: Seq<char>, n: nat, b: Seq<char>, k: nat, i: int)
    requires
        occurs_at(a + marker(n) + b, marker(k), i),
    ensures
        i + marker(k).len() <= a.len() || i >= a.len() + marker(n).len() || (i == a.len() && k == n),
{
    let x = a + marker(n) + b;
    let m = marker(n);
    let p = marker(k);
    lemma_marker_shape(n);
    lemma_marker_shape(k);
    let s = x.subrange(i, i + p.len());
    assert(forall|j: int| 0 <= j < p.len() ==> s[j] == x[i + j]);
    let at = a.len() as int;
    if i < at && i + p.len() > at {
        assert(s[at - i] == x[at]);
        assert(x[at] == m[0]);
    } else if at < i < at + m.len() {
        assert(s[0] == x[i]);
        assert(x[i] == m[i - at]);
    } else if i == at {
        if p.len() <= m.len() {
            let e = p.len() - 1;
            assert(s[e] == x[at + e] && x[at + e] == m[e]);
            assert(e == m.len() - 1);
            assert forall|j: int| 0 <= j < p.len() implies p[j] == m[j] by {
                assert(s[j] == x[at + j] && x[at + j] == m[j]);
            }
            assert(p =~= m);
            lemma_marker_injective(k, n);
        } else {
            let e = m.len() - 1;
            assert(s[e] == x[at + e] && x[at + e] == m[e]);
        }
    }
}

/// Where a marker stands in the place of a part of a text, only that marker
/// has come in.
proof fn lemma_one_marker_comes_in(
    a: Seq<char>,
    inner: Seq<char>,
    b: Seq<char>,
    n: nat,
    k: nat,
    i: int,
)
    requires
        forall|j: int| !#[trigger] occurs_at(a + inner + b, marker(k), j),
        occurs_at(a + marker(n) + b, marker(k), i),
    ensures
        i == a.len(),
        k == n,
{
    let x = a + marker(n) + b;
    let y = a + inner + b;
    let p = marker(k);
    lemma_marker_beside(a, n, b, k, i);
    if i + p.len() <= a.len() {
        assert(y.subrange(i, i + p.len()) =~= x.subrange(i, i + p.len()));
        assert(occurs_at(y, p, i));
    } else if i >= a.len() + marker(n).len() {
        let j = i - marker(n).len() + inner.len();
        assert(y.subrange(j, j + p.len()) =~= x.subrange(i, i + p.len()));
        assert(occurs_at(y, p, j));
    }
}

/// A text that stands once in another is replaced there and nowhere else.
proof fn lemma_replaced_once(a: Seq<char>, p: Seq<char>, b: Seq<char>, q: Seq<char>, i: int)
    requires
        p.len() > 0,
        0 <= i,
        forall|j: int| #[trigger] occurs_at(a + p + b, p, j) ==> j == a.len(),
        i <= a.len() || (a.len() + p.len() <= i <= a.len() + p.len() + b.len()),
    ensures
        replaced_from(a + p + b, p, q, i) == if i <= a.len() {
            a.skip(i) + q + b
        } else {
            (a + p + b).skip(i)
        },
    decreases a.len() + p.len() + b.len() - i,
{
    let x = a + p + b;
    if i < a.len() {
        lemma_replaced_once(a, p, b, q, i + 1);
        assert(x[i] == a[i]);
        assert(seq![a[i]] + (a.skip(i + 1) + q + b) =~= a.skip(i) + q + b);
    } else if i == a.len() {
        assert(x.subrange(i, i + p.len()) =~= p);
        assert(occurs_at(x, p, i));
        if b.len() > 0 {
            lemma_replaced_once(a, p, b, q, i + p.len());
        }
        assert(x.skip(i + p.len()) =~= b);
        assert(replaced_from(x, p, q, i + p.len()) =~= b);
        assert(a.skip(i) + q + b =~= q + b);
    } else if i < x.len() {
        lemma_replaced_once(a, p, b, q, i + 1);
        assert(seq![x[i]] + x.skip(i + 1) =~= x.skip(i));
    } else {
        assert(x.skip(i) =~= Seq::empty());
    }
}

/// Putting the tables of an extraction back restores the table, whatever
/// stands around it.
proof fn lemma_put_back(
    t: Seq<char>,
    count: nat,
    h: spec_fn(nat) -> Seq<char>,
    pre: Seq<char>,
    post: Seq<char>,
)
    requires
        unmarked(pre + t + post, count, extracted(t, count).count),
        forall|i: int, n: nat|
            0 <= i < extracted(t, count).tables.len() && #[trigger] extracted(t, count).tables[i].0
                == #[trigger] marker(n) ==> extracted(t, count).tables[i].1 == h(n),
    ensures
        put_back(pre + extracted(t, count).outer + post, h, count, extracted(t, count).count)
            == pre + t + post,
    decreases angles(t),
{
    let e = extracted(t, count);
    if let Some(s) = nested_range(t) {
        reveal_strlit("");
        lemma_nested_shrinks(t, ""@);
        let inner_t = t.subrange(s.start as int, s.end as int);
        let inner = extracted(inner_t, count);
        let n = inner.count + 1;
        let m = marker(n);
        lemma_marker_has_no_angle(n);
        lemma_nested_shrinks(t, m);
        let rest_t = t.take(s.start as int) + m + t.skip(s.end as int);
        let rest = extracted(rest_t, n);
        lemma_markers(inner_t, count);
        lemma_markers(rest_t, n);
        assert(e.tables == seq![(m, inner.outer)] + inner.tables + rest.tables);
        let a = pre + t.take(s.start as int);
        let b = t.skip(s.end as int) + post;
        assert(pre + t + post =~= a + inner_t + b);
        assert(pre + rest_t + post =~= a + m + b);
        assert(unmarked(a + m + b, n, e.count)) by {
            assert forall|k: nat, i: int| n < k <= e.count implies !#[trigger] occurs_at(
                a + m + b,
                marker(k),
                i,
            ) by {
                if occurs_at(a + m + b, marker(k), i) {
                    lemma_one_marker_comes_in(a, inner_t, b, n, k, i);
                }
            }
        }
        assert forall|i: int, k: nat|
            0 <= i < rest.tables.len() && #[trigger] rest.tables[i].0 == #[trigger] marker(
                k,
            ) implies rest.tables[i].1 == h(k) by {
            assert(e.tables[i + 1 + inner.tables.len()] == rest.tables[i]);
        }
        lemma_put_back(rest_t, n, h, pre, post);
        assert forall|j: int| #[trigger] occurs_at(a + m + b, m, j) implies j == a.len() by {
            lemma_one_marker_comes_in(a, inner_t, b, n, n, j);
        }
        assert(e.tables[0] == (m, inner.outer));
        assert(h(n) == inner.outer) by {
            assert(e.tables[0].0 == marker(n));
        }
        lemma_marker_shape(n);
        lemma_replaced_once(a, m, b, inner.outer, 0);
        assert(a.skip(0) =~= a);
        assert(replaced(a + m + b, m, inner.outer) == a + inner.outer + b);
        assert forall|i: int, k: nat|
            0 <= i < inner.tables.len() && #[trigger] inner.tables[i].0 == #[trigger] marker(
                k,
            ) implies inner.tables[i].1 == h(k) by {
            assert(e.tables[i + 1] == inner.tables[i]);
        }
        lemma_put_back(inner_t, count, h, a, b);
        let x = pre + e.outer + post;
        lemma_put_back_split(x, h, count, n, e.count);
        assert(put_back(x, h, n, e.count) == a + m + b);
    }
}

proof fn lemma_table_for(tables: Seq<(Seq<char>, Seq<char>)>, i: int, n: nat, from: int)
    requires
        0 <= from <= i < tables.len(),
        tables[i].0 == marker(n),
        forall|j: int, k: int|
            0 <= j < k < tables.len() ==> (#[trigger] tables[j]).0 != (#[trigger] tables[k]).0,
    ensures
        table_for(tables, n, from) == tables[i].1,
    decreases i - from,
{
    if from < i {
        assert(tables[from].0 != tables[i].0);
        lemma_table_for(tables, i, n, from + 1);
    }
}

/// Putting the extracted tables back in the place of their markers, the last
/// marker first, restores a table that does not hold such a marker itself.
pub proof fn law_extraction_can_be_undone(t: Seq<char>, count: nat)
    requires
        unmarked(t, count, extracted(t, count).count),
    ensures
        ({
            let e = extracted(t, count);
            put_back(e.outer, |n: nat| table_for(e.tables, n, 0), count, e.count) == t
        }),
{
    let e = extracted(t, count);
    let h = |n: nat| table_for(e.tables, n, 0);
    let none = Seq::<char>::empty();
    assert(none + t + none =~= t);
    assert(none + e.outer + none =~= e.outer);
    lemma_markers(t, count);
    assert forall|i: int, n: nat|
        0 <= i < e.tables.len() && #[trigger] e.tables[i].0 == #[trigger] marker(
            n,
        ) implies e.tables[i].1 == h(n) by {
        lemma_table_for(e.tables, i, n, 0);
    }
    lemma_put_back(t, count, h, none, none);
}

} // verus!
