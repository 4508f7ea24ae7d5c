//! What is kept of a table when it is laid out anew or gets a head.

use vstd::prelude::*;

use crate::cells::{
    cell_html, cells_expanded, columns_html, default_tag, empty_cell_html, expanded_table,
    expansion, flat_table_html, has_merged_cells, headed_table, header_row, plain_attributes,
    promotion, removal, row_open, rows_html, rows_promoted, span_value, Cell, FIRST_ROW,
    SPAN_ATTRIBUTE, TABLE_BLOCK, TABLE_HEAD,
};
use crate::export_html::woven_from;
use crate::grid::{table_grid, Spans};
use crate::macro_laws::holds_between;
use crate::pattern::{
    all_matches, first_match, group_text, law_rewriting_replaces_every_match, parts_between,
    spliced, spliced_upto, well_placed, whole_span, whole_spans, whole_text, Span,
};
use crate::reading::{
    attributes_read, html_read, is_name, lemma_close_read, lemma_end_read, lemma_open_read,
    lemma_plain_open_read, opened, HtmlEvent,
};
use crate::tables::{scanned, TableTag};
use crate::text::{
    decimal, law_decimal_reads_back, occurs_at, replaced, replaced_from, trimmed, white,
};

verus! {

// ── Lists of texts ─────────────────────────────────────────────────

/// Texts one behind the other, up to the last.
pub proof fn lemma_flat_push(v: Seq<Seq<char>>)
    ensures
        v.len() == 0 ==> v.flatten() == Seq::<char>::empty(),
        v.len() > 0 ==> v.flatten() == v.drop_last().flatten() + v.last(),
{
    v.lemma_flatten_and_flatten_alt_are_equivalent();
    if v.len() > 0 {
        v.drop_last().lemma_flatten_and_flatten_alt_are_equivalent();
    }
}

// ── Cells ──────────────────────────────────────────────────────────

/// A cell of the flat table holds its content as it was written, in its own
/// tag and with the attributes that it kept.
pub proof fn law_cell_holds_its_content(cell: Cell)
    requires
        is_name(cell.tag),
        trimmed(cell.attrs, white()).len() > 0,
        cell.attrs[0] == ' ',
        attributes_read(cell.attrs + ">"@).1 == ">"@,
    ensures
        holds_between(
            cell_html(cell),
            seq![HtmlEvent::Open(cell.tag, attributes_read(cell.attrs + ">"@).0)],
            cell.content,
            seq![HtmlEvent::Close(cell.tag)],
        ),
{
    let none = Seq::<char>::empty();
    let head = "<"@ + cell.tag + cell.attrs + ">"@;
    let tail = "</"@ + cell.tag + ">"@;
    let open = HtmlEvent::Open(cell.tag, attributes_read(cell.attrs + ">"@).0);
    assert(cell.attrs + ">"@ + none =~= cell.attrs + ">"@);
    assert(">"@ + none =~= ">"@);
    lemma_open_read(cell.tag, cell.attrs, none);
    assert(head + none =~= head);
    lemma_close_read(cell.tag, none);
    assert(tail + none =~= tail);
    lemma_end_read(seq![open]);
    lemma_end_read(seq![HtmlEvent::Close(cell.tag)]);
    assert(cell_html(cell) =~= head + cell.content + tail);
}

/// A cell that kept no attributes holds its content in a plain tag; one that
/// a merged cell covered holds nothing.
pub proof fn law_plain_cell_holds_its_content(cell: Cell)
    requires
        is_name(cell.tag),
        trimmed(cell.attrs, white()).len() == 0,
    ensures
        holds_between(
            cell_html(cell),
            seq![opened(cell.tag)],
            cell.content,
            seq![HtmlEvent::Close(cell.tag)],
        ),
        html_read(empty_cell_html(cell.tag)) == seq![
            opened(cell.tag),
            HtmlEvent::Close(cell.tag),
        ],
{
    reveal_strlit("></");
    reveal_strlit(">");
    reveal_strlit("</");
    let none = Seq::<char>::empty();
    let head = "<"@ + cell.tag + ">"@;
    let tail = "</"@ + cell.tag + ">"@;
    let close = HtmlEvent::Close(cell.tag);
    lemma_plain_open_read(cell.tag, none);
    lemma_plain_open_read(cell.tag, tail);
    assert(head + none =~= head);
    lemma_close_read(cell.tag, none);
    assert(tail + none =~= tail);
    lemma_end_read(seq![opened(cell.tag)]);
    lemma_end_read(seq![close]);
    assert("<"@ + cell.tag + Seq::<char>::empty() + ">"@ =~= head);
    assert(cell_html(cell) =~= head + cell.content + tail);
    assert("></"@ =~= ">"@ + "</"@);
    assert(empty_cell_html(cell.tag) =~= head + tail);
    assert(seq![opened(cell.tag)] + seq![close] =~= seq![opened(cell.tag), close]);
}

// ── Rows ───────────────────────────────────────────────────────────

/// What stands for each column of a row: its cell, or an empty cell.
pub open spec fn column_blocks(row: Seq<Option<int>>, cells: Seq<Cell>, tag: Seq<char>) -> Seq<
    Seq<char>,
> {
    Seq::new(
        row.len(),
        |c: int|
            match row[c] {
                Some(k) => cell_html(cells[k]),
                None => empty_cell_html(tag),
            },
    )
}

proof fn lemma_columns(row: Seq<Option<int>>, cells: Seq<Cell>, tag: Seq<char>, n: int)
    requires
        0 <= n <= row.len(),
    ensures
        columns_html(row, cells, tag, n) == column_blocks(row, cells, tag).take(n).flatten(),
    decreases n,
{
    let blocks = column_blocks(row, cells, tag);
    lemma_flat_push(blocks.take(n));
    if n > 0 {
        lemma_columns(row, cells, tag, n - 1);
        assert(blocks.take(n).drop_last() =~= blocks.take(n - 1));
    }
}

/// What stands for each row of a grid: its opening tag, its columns from left
/// to right, and its closing tag.
pub open spec fn row_blocks(
    grid: Seq<Seq<Option<int>>>,
    rows: Seq<Seq<Cell>>,
    opens: Seq<Seq<char>>,
) -> Seq<Seq<char>> {
    Seq::new(
        grid.len(),
        |r: int|
            (if r < opens.len() {
                opens[r]
            } else {
                "<tr>"@
            }) + column_blocks(grid[r], rows[r], default_tag(grid[r], rows[r], 0)).flatten()
                + "</tr>"@,
    )
}

proof fn lemma_rows(
    grid: Seq<Seq<Option<int>>>,
    rows: Seq<Seq<Cell>>,
    opens: Seq<Seq<char>>,
    n: int,
)
    requires
        0 <= n <= grid.len(),
    ensures
        rows_html(grid, rows, opens, n) == row_blocks(grid, rows, opens).take(n).flatten(),
    decreases n,
{
    let blocks = row_blocks(grid, rows, opens);
    lemma_flat_push(blocks.take(n));
    if n > 0 {
        let r = n - 1;
        let tag = default_tag(grid[r], rows[r], 0);
        let columns = column_blocks(grid[r], rows[r], tag);
        lemma_rows(grid, rows, opens, r);
        lemma_columns(grid[r], rows[r], tag, grid[r].len() as int);
        assert(columns.take(grid[r].len() as int) =~= columns);
        assert(blocks.take(n).drop_last() =~= blocks.take(r));
        assert(blocks.take(n).last() == row_open(opens, r) + columns.flatten() + "</tr>"@);
        let so_far = blocks.take(r).flatten();
        assert(so_far + row_open(opens, r) + columns.flatten() + "</tr>"@ =~= so_far + (row_open(
            opens,
            r,
        ) + columns.flatten() + "</tr>"@));
    }
}

/// The flat table is written row by row, and every row column by column: each
/// cell stands where the grid has it, in its row and its order.
pub proof fn law_flat_table_is_its_grid(
    prefix: Seq<char>,
    rows: Seq<Seq<Cell>>,
    spans: Seq<Seq<Spans>>,
    opens: Seq<Seq<char>>,
    has_body: bool,
)
    requires
        table_grid(spans).len() == rows.len(),
    ensures
        flat_table_html(prefix, rows, spans, opens, has_body) == prefix + row_blocks(
            table_grid(spans),
            rows,
            opens,
        ).flatten() + (if has_body {
            "</tbody></table>"@
        } else {
            "</table>"@
        }),
{
    let blocks = row_blocks(table_grid(spans), rows, opens);
    lemma_rows(table_grid(spans), rows, opens, rows.len() as int);
    assert(blocks.take(rows.len() as int) =~= blocks);
}

/// The empty cells of a row have the tag of its first cell.
pub proof fn law_empty_cells_follow_the_first(
    row: Seq<Option<int>>,
    cells: Seq<Cell>,
    from: int,
    c: int,
)
    requires
        0 <= from <= c < row.len(),
        row[c] is Some,
        forall|i: int| from <= i < c ==> (#[trigger] row[i]) is None,
    ensures
        default_tag(row, cells, from) == cells[row[c]->0].tag,
    decreases c - from,
{
    if from < c {
        law_empty_cells_follow_the_first(row, cells, from + 1, c);
    }
}

/// The empty cells of a row without cells are data cells.
pub proof fn law_empty_row_has_data_cells(row: Seq<Option<int>>, cells: Seq<Cell>, from: int)
    requires
        0 <= from,
        forall|i: int| from <= i < row.len() ==> (#[trigger] row[i]) is None,
    ensures
        default_tag(row, cells, from) == "td"@,
    decreases row.len() - from,
{
    if from < row.len() {
        law_empty_row_has_data_cells(row, cells, from + 1);
    }
}

/// Every table of a page that has merged cells is laid out anew, every other
/// stays, and so does all between the tables.
pub proof fn law_every_merged_table_is_laid_out(t: Seq<char>)
    requires
        well_placed(t.len(), all_matches(TABLE_BLOCK@, t)),
    ensures
        ({
            let ms = all_matches(TABLE_BLOCK@, t);
            let parts = parts_between(t, whole_spans(ms));
            &&& t == woven_from(parts, Seq::new(ms.len(), |k: int| whole_text(t, ms[k])), 0)
            &&& cells_expanded(t) == woven_from(
                parts,
                Seq::new(
                    ms.len(),
                    |k: int|
                        if has_merged_cells(whole_text(t, ms[k])) {
                            expanded_table(whole_text(t, ms[k]))
                        } else {
                            whole_text(t, ms[k])
                        },
                ),
                0,
            )
        }),
{
    let ms = all_matches(TABLE_BLOCK@, t);
    let g = expansion();
    law_rewriting_replaces_every_match(TABLE_BLOCK@, t, g);
    assert(Seq::new(ms.len(), |k: int| g(t, ms[k])) =~= Seq::new(
        ms.len(),
        |k: int|
            if has_merged_cells(whole_text(t, ms[k])) {
                expanded_table(whole_text(t, ms[k]))
            } else {
                whole_text(t, ms[k])
            },
    ));
}

// ── Heads ──────────────────────────────────────────────────────────

/// Replacing by a text of the same length changes a text at the places where
/// the replaced text stands, and nowhere else.
pub proof fn lemma_replaced_in_place(t: Seq<char>, p: Seq<char>, q: Seq<char>, from: int)
    requires
        0 <= from <= t.len(),
        p.len() == q.len(),
        p.len() > 0,
    ensures
        replaced_from(t, p, q, from).len() == t.len() - from,
        forall|i: int|
            0 <= i < t.len() - from ==> #[trigger] replaced_from(t, p, q, from)[i] == t[from + i]
                || exists|j: int|
                from <= j <= from + i < j + p.len() && #[trigger] occurs_at(t, p, j)
                    && replaced_from(t, p, q, from)[i] == q[from + i - j],
    decreases t.len() - from,
{
    let r = replaced_from(t, p, q, from);
    if from < t.len() {
        if occurs_at(t, p, from) {
            lemma_replaced_in_place(t, p, q, from + p.len());
            let tail = replaced_from(t, p, q, from + p.len());
            assert(r == q + tail);
            assert forall|i: int| 0 <= i < t.len() - from implies #[trigger] r[i] == t[from + i]
                || exists|j: int|
                from <= j <= from + i < j + p.len() && #[trigger] occurs_at(t, p, j) && r[i]
                    == q[from + i - j] by {
                if i < p.len() {
                    assert(occurs_at(t, p, from) && r[i] == q[from + i - from]);
                } else {
                    assert(r[i] == tail[i - p.len()]);
                    assert(from + p.len() + (i - p.len()) == from + i);
                }
            }
        } else {
            lemma_replaced_in_place(t, p, q, from + 1);
            let tail = replaced_from(t, p, q, from + 1);
            assert(r == seq![t[from]] + tail);
            assert forall|i: int| 0 <= i < t.len() - from implies #[trigger] r[i] == t[from + i]
                || exists|j: int|
                from <= j <= from + i < j + p.len() && #[trigger] occurs_at(t, p, j) && r[i]
                    == q[from + i - j] by {
                if i > 0 {
                    assert(r[i] == tail[i - 1]);
                    assert(from + 1 + (i - 1) == from + i);
                }
            }
        }
    }
}

proof fn lemma_cell_tag_in_place(t: Seq<char>, p: Seq<char>, q: Seq<char>)
    requires
        p == "<td"@ && q == "<th"@ || p == "</td>"@ && q == "</th>"@,
    ensures
        replaced(t, p, q).len() == t.len(),
        forall|i: int|
            0 <= i < t.len() ==> #[trigger] replaced(t, p, q)[i] == t[i] || t[i] == 'd' && replaced(
                t,
                p,
                q,
            )[i] == 'h',
{
    reveal_strlit("<td");
    reveal_strlit("<th");
    reveal_strlit("</td>");
    reveal_strlit("</th>");
    lemma_replaced_in_place(t, p, q, 0);
    let r = replaced(t, p, q);
    assert forall|i: int| 0 <= i < t.len() implies #[trigger] r[i] == t[i] || t[i] == 'd' && r[i]
        == 'h' by {
        if r[i] != t[0 + i] {
            let j = choose|j: int|
                0 <= j <= 0 + i < j + p.len() && #[trigger] occurs_at(t, p, j) && r[i] == q[0 + i
                    - j];
            assert(t.subrange(j, j + p.len())[i - j] == p[i - j]);
            assert(t[i] == p[i - j]);
        }
    }
}

/// The head row of a table is its first row, with nothing changed but the tags
/// of its cells: data cells become header cells.
pub proof fn law_head_row_keeps_its_cells(row: Seq<char>)
    ensures
        header_row(row).len() == row.len(),
        forall|i: int|
            0 <= i < row.len() ==> #[trigger] header_row(row)[i] == row[i] || row[i] == 'd'
                && header_row(row)[i] == 'h',
{
    let first = replaced(row, "<td"@, "<th"@);
    lemma_cell_tag_in_place(row, "<td"@, "<th"@);
    lemma_cell_tag_in_place(first, "</td>"@, "</th>"@);
    assert forall|i: int| 0 <= i < row.len() implies #[trigger] header_row(row)[i] == row[i]
        || row[i] == 'd' && header_row(row)[i] == 'h' by {
        assert(first[i] == row[i] || row[i] == 'd' && first[i] == 'h');
    }
}

/// A table with a new head is the table with its first row set between the
/// tags of a head; all else of it stays.
pub proof fn law_headed_table_keeps_the_rest(attrs: Seq<char>, inner: Seq<char>, row: Span)
    requires
        row.start <= row.end <= inner.len(),
        ("<table"@ + attrs + ">"@).len() + inner.len() <= usize::MAX,
    ensures
        ({
            let n = ("<table"@ + attrs + ">"@).len();
            spliced(
                "<table"@ + attrs + ">"@ + inner + "</table>"@,
                seq![Span { start: (n + row.start) as usize, end: (n + row.end) as usize }],
                seq!["<thead>"@ + header_row(inner.subrange(row.start as int, row.end as int))
                    + "</thead>"@],
            ) == headed_table(attrs, inner, row)
        }),
{
    let open = "<table"@ + attrs + ">"@;
    let n = open.len();
    let t = open + inner + "</table>"@;
    let spans = seq![Span { start: (n + row.start) as usize, end: (n + row.end) as usize }];
    let head = "<thead>"@ + header_row(inner.subrange(row.start as int, row.end as int))
        + "</thead>"@;
    let reps = seq![head];
    reveal_with_fuel(spliced_upto, 2);
    assert(t.subrange(0, n + row.start) =~= open + inner.take(row.start as int));
    assert(t.subrange(n + row.end, t.len() as int) =~= inner.skip(row.end as int) + "</table>"@);
    assert(spliced(t, spans, reps) =~= open + inner.take(row.start as int) + head + (inner.skip(
        row.end as int,
    ) + "</table>"@));
    assert(headed_table(attrs, inner, row) =~= open + inner.take(row.start as int) + head
        + (inner.skip(row.end as int) + "</table>"@));
}

/// Every table of a page without a head gets its first row as head; a table
/// with a head or without rows stays, and so does all between the tables.
pub proof fn law_every_table_gets_a_head(t: Seq<char>)
    requires
        well_placed(t.len(), all_matches(TABLE_BLOCK@, t)),
    ensures
        ({
            let ms = all_matches(TABLE_BLOCK@, t);
            let parts = parts_between(t, whole_spans(ms));
            &&& t == woven_from(parts, Seq::new(ms.len(), |k: int| whole_text(t, ms[k])), 0)
            &&& rows_promoted(t) == woven_from(
                parts,
                Seq::new(
                    ms.len(),
                    |k: int|
                        match (
                            first_match(TABLE_HEAD@, group_text(t, ms[k], 2)),
                            first_match(FIRST_ROW@, group_text(t, ms[k], 2)),
                        ) {
                            (None, Some(row)) => headed_table(
                                group_text(t, ms[k], 1),
                                group_text(t, ms[k], 2),
                                whole_span(row),
                            ),
                            _ => whole_text(t, ms[k]),
                        },
                ),
                0,
            )
        }),
{
    let ms = all_matches(TABLE_BLOCK@, t);
    let g = promotion();
    law_rewriting_replaces_every_match(TABLE_BLOCK@, t, g);
    assert(Seq::new(ms.len(), |k: int| g(t, ms[k])) =~= Seq::new(
        ms.len(),
        |k: int|
            match (
                first_match(TABLE_HEAD@, group_text(t, ms[k], 2)),
                first_match(FIRST_ROW@, group_text(t, ms[k], 2)),
            ) {
                (None, Some(row)) => headed_table(
                    group_text(t, ms[k], 1),
                    group_text(t, ms[k], 2),
                    whole_span(row),
                ),
                _ => whole_text(t, ms[k]),
            },
    ));
}

// ── Spans and ranges ───────────────────────────────────────────────

/// A span attribute gives the number that it writes; where there is none, or
/// one that is no number, a cell covers one position.
pub proof fn law_span_is_the_written_number(n: nat)
    requires
        n <= usize::MAX,
    ensures
        span_value(Some(decimal(n))) == n,
        span_value(None) == 1,
{
    law_decimal_reads_back(n);
}

/// The attributes of a cell are kept, but for those of its spans.
pub proof fn law_cell_keeps_other_attributes(attrs: Seq<char>)
    requires
        well_placed(attrs.len(), all_matches(SPAN_ATTRIBUTE@, attrs)),
    ensures
        ({
            let ms = all_matches(SPAN_ATTRIBUTE@, attrs);
            let parts = parts_between(attrs, whole_spans(ms));
            &&& attrs == woven_from(
                parts,
                Seq::new(ms.len(), |k: int| whole_text(attrs, ms[k])),
                0,
            )
            &&& plain_attributes(attrs) == woven_from(
                parts,
                Seq::new(ms.len(), |k: int| Seq::empty()),
                0,
            )
        }),
{
    let ms = all_matches(SPAN_ATTRIBUTE@, attrs);
    let g = removal();
    law_rewriting_replaces_every_match(SPAN_ATTRIBUTE@, attrs, g);
    assert(Seq::new(ms.len(), |k: int| g(attrs, ms[k])) =~= Seq::new(
        ms.len(),
        |k: int| Seq::empty(),
    ));
}

/// How many tables are open behind the first `n` tags, where `depth` were open
/// before them.
pub open spec fn depth_behind(tags: Seq<TableTag>, depth: int, n: int) -> int
    decreases n,
{
    if n <= 0 {
        depth
    } else if tags[n - 1].close {
        depth_behind(tags, depth, n - 1) - 1
    } else {
        depth_behind(tags, depth, n - 1) + 1
    }
}

/// Whether tags open and close tables inside an open one, which stays open.
pub open spec fn is_inside(tags: Seq<TableTag>) -> bool {
    &&& forall|n: int| 0 <= n <= tags.len() ==> #[trigger] depth_behind(tags, 1, n) >= 1
    &&& depth_behind(tags, 1, tags.len() as int) == 1
}

proof fn lemma_scanned_prefix(a: Seq<TableTag>, b: Seq<TableTag>, n: int)
    requires
        n <= a.len(),
    ensures
        scanned(a + b, n) == scanned(a, n),
    decreases n,
{
    if n > 0 {
        lemma_scanned_prefix(a, b, n - 1);
        assert((a + b)[n - 1] == a[n - 1]);
    }
}

proof fn lemma_scanned_joined(a: Seq<TableTag>, b: Seq<TableTag>, n: int)
    requires
        0 <= n <= b.len(),
        scanned(a, a.len() as int).depth == 0,
    ensures
        ({
            let whole = scanned(a + b, a.len() + n);
            let part = scanned(b, n);
            &&& whole.ranges == scanned(a, a.len() as int).ranges + part.ranges
            &&& whole.depth == part.depth
            &&& part.depth >= 0
            &&& part.depth > 0 ==> whole.start == part.start
        }),
    decreases n,
{
    let first = scanned(a, a.len() as int).ranges;
    if n == 0 {
        lemma_scanned_prefix(a, b, a.len() as int);
        assert(first + scanned(b, 0).ranges =~= first);
    } else {
        lemma_scanned_joined(a, b, n - 1);
        assert((a + b)[a.len() + n - 1] == b[n - 1]);
        assert(scanned(a + b, a.len() + n).ranges =~= first + scanned(b, n).ranges);
    }
}

proof fn lemma_scanned_inside(open: TableTag, inner: Seq<TableTag>, n: int)
    requires
        !open.close,
        is_inside(inner),
        0 <= n <= inner.len(),
    ensures
        ({
            let s = scanned(seq![open] + inner, n + 1);
            s.ranges.len() == 0 && s.depth == depth_behind(inner, 1, n) && s.start == open.start
        }),
    decreases n,
{
    let tags = seq![open] + inner;
    if n == 0 {
        reveal_with_fuel(scanned, 2);
        assert(tags[0] == open);
    } else {
        lemma_scanned_inside(open, inner, n - 1);
        assert(tags[n] == inner[n - 1]);
        assert(depth_behind(inner, 1, n) >= 1);
        assert(depth_behind(inner, 1, n - 1) >= 1);
    }
}

/// A top-level table is found from its opening tag to its own closing tag,
/// whatever tables stand in it; the tables before and behind it are found as
/// they are by themselves.
pub proof fn law_top_level_table_is_found(
    a: Seq<TableTag>,
    open: TableTag,
    inner: Seq<TableTag>,
    close: TableTag,
    b: Seq<TableTag>,
)
    requires
        scanned(a, a.len() as int).depth == 0,
        !open.close,
        is_inside(inner),
        close.close,
    ensures
        ({
            let tags = a + (seq![open] + inner + seq![close] + b);
            scanned(tags, tags.len() as int).ranges == scanned(a, a.len() as int).ranges + seq![
                Span { start: open.start, end: close.end },
            ] + scanned(b, b.len() as int).ranges
        }),
{
    let head = seq![open] + inner;
    let table = head + seq![close];
    let rest = table + b;
    let n = table.len() as int;
    lemma_scanned_inside(open, inner, inner.len() as int);
    lemma_scanned_prefix(head, seq![close], n - 1);
    assert(table[n - 1] == close);
    let one = scanned(table, n);
    assert(one.depth == 0);
    assert(one.ranges =~= seq![Span { start: open.start, end: close.end }]);
    lemma_scanned_joined(table, b, b.len() as int);
    lemma_scanned_joined(a, rest, rest.len() as int);
    assert(a + (seq![open] + inner + seq![close] + b) =~= a + rest);
    let found = scanned(a, a.len() as int).ranges;
    assert(found + (one.ranges + scanned(b, b.len() as int).ranges) =~= found + one.ranges
        + scanned(b, b.len() as int).ranges);
}

} // verus!
