//! Table cells that are merged, laid out as a flat grid.

use vstd::prelude::*;
use vstd::string::StringExecFns;

use crate::grid::{
    has_cell, law_grid_entries_are_cells, lay_out, rows_view, spans_view, table_cols, table_grid,
    Spans,
};
use crate::macros::{all_texts, matched_texts};
use crate::pattern::{
    all_matches, find_all, find_first, first_group, first_group_of, first_match, fits, found_views,
    group_text, is_match, law_rewriting_by_itself, rewrite, rewritten, well_placed, whole_span,
    whole_text, Found, Span,
};
use crate::text::{
    chars_of, contains, number, occurs_in, part, read_number, replace, replaced, trim, trimmed,
    unicode_lower, views, white,
};

verus! {

/// The pattern of a table: its attributes and its content.
pub const TABLE_BLOCK: &'static str = r"(?is)<table\b([^>]*)>(.*?)</table>";

/// The pattern of an attribute that merges cells.
pub const MERGED: &'static str = r#"(?i)(colspan|rowspan)\s*=\s*["']?\d"#;

/// The pattern of a table row: its content.
pub const TABLE_ROW: &'static str = r"(?is)<tr\b[^>]*>(.*?)</tr>";

/// The pattern of a table cell: its tag, attributes and content.
pub const TABLE_CELL: &'static str = r"(?is)<(td|th)\b([^>]*)>(.*?)</(?:td|th)>";

/// The pattern of a number of columns.
pub const COLSPAN: &'static str = r#"(?i)colspan\s*=\s*["']?(\d+)["']?"#;

/// The pattern of a number of rows.
pub const ROWSPAN: &'static str = r#"(?i)rowspan\s*=\s*["']?(\d+)["']?"#;

/// The pattern of an attribute that merges cells, with the space before it.
pub const SPAN_ATTRIBUTE: &'static str = r#"(?i)\s*(colspan|rowspan)\s*=\s*["']?\d+["']?"#;

/// The pattern of a row's opening tag.
pub const ROW_OPEN: &'static str = r"(?is)<tr\b[^>]*>";

/// The pattern of a table up to its first row: its opening tag, and what follows.
pub const BEFORE_FIRST_ROW: &'static str = r"(?is)^(<table\b[^>]*>)(.*?)(<tr\b)";

/// Whether a table fragment has cells with `colspan` or `rowspan`.
pub open spec fn has_merged_cells(t: Seq<char>) -> bool {
    first_match(MERGED@, t) is Some
}

/// Whether a table fragment has cells with `colspan` or `rowspan`.
pub fn html_has_merged_cells(table_html: &str) -> (r: bool)
    ensures
        r == has_merged_cells(table_html@),
{
    is_match(MERGED, table_html)
}

// ── Cells ──────────────────────────────────────────────────────────

/// A table cell as it is written.
#[derive(Debug)]
pub struct CellInfo {
    pub tag: String,
    pub attrs: String,
    pub content: String,
}

/// What a table cell is.
pub struct Cell {
    pub tag: Seq<char>,
    pub attrs: Seq<char>,
    pub content: Seq<char>,
}

impl View for CellInfo {
    type V = Cell;

    open spec fn view(&self) -> Cell {
        Cell { tag: self.tag@, attrs: self.attrs@, content: self.content@ }
    }
}

/// The cells of a list of rows.
pub open spec fn cells_view(rows: Seq<Vec<CellInfo>>) -> Seq<Seq<Cell>> {
    Seq::new(rows.len(), |r: int| row_cells_view(rows[r]@))
}

/// The cells of a row.
pub open spec fn row_cells_view(row: Seq<CellInfo>) -> Seq<Cell> {
    Seq::new(row.len(), |k: int| row[k]@)
}

/// The number that a span attribute gives; one where it gives none, or one
/// beyond what can be counted.
pub open spec fn span_value(digits: Option<Seq<char>>) -> usize {
    match digits {
        Some(d) => match number(d, 10) {
            Some(v) => if v <= usize::MAX {
                v as usize
            } else {
                1
            },
            None => 1,
        },
        None => 1,
    }
}

fn read_span(pattern: &str, attrs: &str) -> (r: usize)
    ensures
        r == span_value(first_group(pattern@, attrs@, 1)),
{
    match first_group_of(pattern, attrs, 1) {
        Some(d) => match read_number(&chars_of(&d), 10, usize::MAX as u64) {
            Some(v) => v as usize,
            None => 1,
        },
        None => 1,
    }
}

/// The spans that the attributes of a cell give.
pub open spec fn cell_spans(attrs: Seq<char>) -> Spans {
    Spans {
        colspan: span_value(first_group(COLSPAN@, attrs, 1)),
        rowspan: span_value(first_group(ROWSPAN@, attrs, 1)),
    }
}

/// A replacement by nothing.
pub open spec fn removal() -> spec_fn(Seq<char>, Seq<Option<Span>>) -> Seq<char> {
    |t: Seq<char>, m: Seq<Option<Span>>| Seq::empty()
}

/// The attributes of a cell without its spans.
pub open spec fn plain_attributes(attrs: Seq<char>) -> Seq<char> {
    rewritten(SPAN_ATTRIBUTE@, attrs, removal())
}

fn drop_span_attributes(attrs: &str) -> (r: String)
    ensures
        r@ == plain_attributes(attrs@),
{
    let f = |t: &[char], m: &Found| -> (r: String)
        requires
            fits(t@.len(), m@),
        ensures
            r@ == removal()(t@, m@),
        { String::new() };
    rewrite(SPAN_ATTRIBUTE, attrs, f, Ghost(removal()))
}

/// The cell that a match shows.
pub open spec fn matched_cell(t: Seq<char>, m: Seq<Option<Span>>) -> Cell {
    Cell {
        tag: unicode_lower(group_text(t, m, 1)),
        attrs: plain_attributes(group_text(t, m, 2)),
        content: group_text(t, m, 3),
    }
}

/// The cells of the content of a row.
pub open spec fn cells_in(row: Seq<char>) -> Seq<Cell> {
    let ms = all_matches(TABLE_CELL@, row);
    Seq::new(ms.len(), |i: int| matched_cell(row, ms[i]))
}

/// The spans of the cells of the content of a row.
pub open spec fn spans_in(row: Seq<char>) -> Seq<Spans> {
    let ms = all_matches(TABLE_CELL@, row);
    Seq::new(ms.len(), |i: int| cell_spans(group_text(row, ms[i], 2)))
}

fn read_cells(row: &str) -> (r: (Vec<CellInfo>, Vec<Spans>))
    ensures
        row_cells_view(r.0@) == cells_in(row@),
        r.1@ == spans_in(row@),
{
    let t = chars_of(row);
    let ms = find_all(TABLE_CELL, row);
    let ghost found = found_views(ms@);
    let mut cells: Vec<CellInfo> = Vec::new();
    let mut spans: Vec<Spans> = Vec::new();
    let mut i: usize = 0;
    while i < ms.len()
        invariant
            t@ == row@,
            found == found_views(ms@),
            well_placed(t@.len(), found),
            i <= ms.len(),
            cells.len() == i,
            spans.len() == i,
            forall|k: int| 0 <= k < i ==> (#[trigger] cells[k])@ == matched_cell(t@, found[k]),
            forall|k: int|
                0 <= k < i ==> (#[trigger] spans[k]) == cell_spans(group_text(t@, found[k], 2)),
        decreases ms.len() - i,
    {
        assert(fits(t@.len(), found[i as int]));
        let tag = ms[i].group_text(&t, 1);
        let attrs = ms[i].group_text(&t, 2);
        spans.push(
            Spans { colspan: read_span(COLSPAN, &attrs), rowspan: read_span(ROWSPAN, &attrs) },
        );
        cells.push(
            CellInfo {
                tag: tag.to_lowercase(),
                attrs: drop_span_attributes(&attrs),
                content: ms[i].group_text(&t, 3),
            },
        );
        i += 1;
    }
    assert(row_cells_view(cells@) =~= cells_in(row@));
    assert(spans@ =~= spans_in(row@));
    (cells, spans)
}

// ── Writing a grid ─────────────────────────────────────────────────

/// A cell as it is written into the grid.
pub open spec fn cell_html(cell: Cell) -> Seq<char> {
    let attrs = if trimmed(cell.attrs, white()).len() > 0 {
        cell.attrs
    } else {
        Seq::empty()
    };
    "<"@ + cell.tag + attrs + ">"@ + cell.content + "</"@ + cell.tag + ">"@
}

/// An empty cell.
pub open spec fn empty_cell_html(tag: Seq<char>) -> Seq<char> {
    "<"@ + tag + "></"@ + tag + ">"@
}

/// The tag of empty cells in a row: that of the first cell at or after
/// column `c`, and `td` in a row without cells.
pub open spec fn default_tag(row: Seq<Option<int>>, cells: Seq<Cell>, c: int) -> Seq<char>
    decreases row.len() - c,
{
    if c < 0 || c >= row.len() {
        "td"@
    } else {
        match row[c] {
            Some(k) => cells[k].tag,
            None => default_tag(row, cells, c + 1),
        }
    }
}

/// The first `n` columns of a row.
pub open spec fn columns_html(
    row: Seq<Option<int>>,
    cells: Seq<Cell>,
    tag: Seq<char>,
    n: int,
) -> Seq<char>
    decreases n,
{
    if n <= 0 {
        Seq::empty()
    } else {
        columns_html(row, cells, tag, n - 1) + match row[n - 1] {
            Some(k) => cell_html(cells[k]),
            None => empty_cell_html(tag),
        }
    }
}

/// The opening tag of a row: its own, and a plain one where there is none.
pub open spec fn row_open(opens: Seq<Seq<char>>, r: int) -> Seq<char> {
    if r < opens.len() {
        opens[r]
    } else {
        "<tr>"@
    }
}

/// The first `n` rows of a grid.
pub open spec fn rows_html(
    grid: Seq<Seq<Option<int>>>,
    rows: Seq<Seq<Cell>>,
    opens: Seq<Seq<char>>,
    n: int,
) -> Seq<char>
    decreases n,
{
    if n <= 0 {
        Seq::empty()
    } else {
        let r = n - 1;
        let tag = default_tag(grid[r], rows[r], 0);
        rows_html(grid, rows, opens, r) + row_open(opens, r) + columns_html(
            grid[r],
            rows[r],
            tag,
            grid[r].len() as int,
        ) + "</tr>"@
    }
}

/// Whether every entry of a grid is the number of a cell of its row.
pub open spec fn entries_fit(grid: Seq<Seq<Option<int>>>, rows: Seq<Seq<Cell>>) -> bool {
    &&& grid.len() == rows.len()
    &&& forall|r: int, c: int|
        0 <= r < grid.len() && 0 <= c < grid[r].len() && (#[trigger] grid[r][c]) is Some
            ==> 0 <= grid[r][c]->0 < rows[r].len()
}

fn push_cell(out: &mut String, cell: &CellInfo)
    ensures
        final(out)@ == old(out)@ + cell_html(cell@),
{
    let ghost before = out@;
    let mut html: String = "<".to_owned();
    html.append(&cell.tag);
    if chars_of(&trim(&cell.attrs)).len() > 0 {
        html.append(&cell.attrs);
    } else {
        assert(html@ + Seq::<char>::empty() =~= html@);
    }
    html.append(">");
    html.append(&cell.content);
    html.append("</");
    html.append(&cell.tag);
    html.append(">");
    out.append(&html);
}

fn push_empty_cell(out: &mut String, tag: &str)
    ensures
        final(out)@ == old(out)@ + empty_cell_html(tag@),
{
    let mut html: String = "<".to_owned();
    html.append(tag);
    html.append("></");
    html.append(tag);
    html.append(">");
    out.append(&html);
}

/// Writes the rows of a grid.
pub fn render_rows(grid: &Vec<Vec<Option<usize>>>, rows: &Vec<Vec<CellInfo>>, opens: &Vec<String>) -> (r:
    String)
    requires
        entries_fit(rows_view(grid@), cells_view(rows@)),
    ensures
        r@ == rows_html(rows_view(grid@), cells_view(rows@), views(opens@), grid@.len() as int),
{
    let ghost g = rows_view(grid@);
    let ghost cs = cells_view(rows@);
    let ghost os = views(opens@);
    let mut out: String = String::new();
    let mut r: usize = 0;
    while r < grid.len()
        invariant
            g == rows_view(grid@),
            cs == cells_view(rows@),
            os == views(opens@),
            entries_fit(g, cs),
            r <= grid.len(),
            out@ == rows_html(g, cs, os, r as int),
        decreases grid.len() - r,
    {
        let row = &grid[r];
        let cells = &rows[r];
        assert(g[r as int].len() == row@.len());
        assert(cs[r as int].len() == cells@.len());
        let ghost before = out@;
        let mut tag: String = "td".to_owned();
        let mut c: usize = 0;
        let mut found: bool = false;
        while c < row.len() && !found
            invariant
                r < grid.len(),
                g == rows_view(grid@),
                cs == cells_view(rows@),
                entries_fit(g, cs),
                row@ == grid@[r as int]@,
                cells@ == rows@[r as int]@,
                c <= row.len(),
                !found ==> tag@ == "td"@ && default_tag(g[r as int], cs[r as int], 0)
                    == default_tag(g[r as int], cs[r as int], c as int),
                found ==> tag@ == default_tag(g[r as int], cs[r as int], 0),
            decreases row.len() - c,
        {
            assert(g[r as int][c as int] == match row@[c as int] {
                Some(k) => Some(k as int),
                None => None,
            });
            if let Some(k) = row[c] {
                assert(cs[r as int][k as int] == cells@[k as int]@);
                tag = cells[k].tag.clone();
                found = true;
            }
            c += 1;
        }
        assert(tag@ == default_tag(g[r as int], cs[r as int], 0));
        if r < opens.len() {
            assert(os[r as int] == opens@[r as int]@);
            out.append(&opens[r]);
        } else {
            out.append("<tr>");
        }
        let ghost head = out@;
        let mut c: usize = 0;
        while c < row.len()
            invariant
                r < grid.len(),
                g == rows_view(grid@),
                cs == cells_view(rows@),
                entries_fit(g, cs),
                row@ == grid@[r as int]@,
                cells@ == rows@[r as int]@,
                c <= row.len(),
                out@ == head + columns_html(g[r as int], cs[r as int], tag@, c as int),
            decreases row.len() - c,
        {
            let ghost so_far = columns_html(g[r as int], cs[r as int], tag@, c as int);
            assert(g[r as int][c as int] == match row@[c as int] {
                Some(k) => Some(k as int),
                None => None,
            });
            match row[c] {
                Some(k) => {
                    assert(cs[r as int][k as int] == cells@[k as int]@);
                    push_cell(&mut out, &cells[k]);
                    assert(out@ =~= head + (so_far + cell_html(cells@[k as int]@)));
                },
                None => {
                    push_empty_cell(&mut out, &tag);
                    assert(out@ =~= head + (so_far + empty_cell_html(tag@)));
                },
            }
            c += 1;
        }
        out.append("</tr>");
        r += 1;
    }
    out
}

// ── Expanding a table ──────────────────────────────────────────────

/// Whether there are as many spans as cells in every row.
pub open spec fn same_shape(rows: Seq<Seq<Cell>>, spans: Seq<Seq<Spans>>) -> bool {
    &&& rows.len() == spans.len()
    &&& forall|r: int| 0 <= r < rows.len() ==> (#[trigger] rows[r]).len() == spans[r].len()
}

/// A table with its cells laid out in a flat grid.
pub open spec fn flat_table_html(
    prefix: Seq<char>,
    rows: Seq<Seq<Cell>>,
    spans: Seq<Seq<Spans>>,
    opens: Seq<Seq<char>>,
    has_body: bool,
) -> Seq<char> {
    prefix + rows_html(table_grid(spans), rows, opens, rows.len() as int) + if has_body {
        "</tbody></table>"@
    } else {
        "</table>"@
    }
}

/// Lays the cells of a table out in a flat grid. Nothing comes out where the
/// columns cannot be counted.
pub fn flatten_table(
    prefix: &str,
    rows: &Vec<Vec<CellInfo>>,
    spans: &Vec<Vec<Spans>>,
    opens: &Vec<String>,
    has_body: bool,
) -> (r: Option<String>)
    requires
        same_shape(cells_view(rows@), spans_view(spans@)),
    ensures
        match r {
            Some(html) => table_cols(spans_view(spans@)) <= usize::MAX && html@ == flat_table_html(
                prefix@,
                cells_view(rows@),
                spans_view(spans@),
                views(opens@),
                has_body,
            ),
            None => table_cols(spans_view(spans@)) > usize::MAX,
        },
{
    let ghost sv = spans_view(spans@);
    let grid = match lay_out(spans) {
        Some(g) => g,
        None => {
            return None;
        },
    };
    proof {
        let g = table_grid(sv);
        let cv = cells_view(rows@);
        assert forall|r: int, c: int|
            0 <= r < g.len() && 0 <= c < g[r].len() && (#[trigger] g[r][c]) is Some implies 0
            <= g[r][c]->0 < cv[r].len() by {
            assert(has_cell(g, (r, c)));
            law_grid_entries_are_cells(sv, (r, c));
            assert(cv[r].len() == sv[r].len());
        }
        assert(grid@.len() == rows_view(grid@).len());
    }
    let mut out: String = prefix.to_owned();
    out.append(&render_rows(&grid, rows, opens));
    if has_body {
        out.append("</tbody></table>");
    } else {
        out.append("</table>");
    }
    Some(out)
}

/// The contents of the rows of a table.
pub open spec fn row_contents(t: Seq<char>) -> Seq<Seq<char>> {
    let ms = all_matches(TABLE_ROW@, t);
    Seq::new(ms.len(), |i: int| group_text(t, ms[i], 1))
}

/// The cells of all rows of a table.
pub open spec fn table_cells(t: Seq<char>) -> Seq<Seq<Cell>> {
    Seq::new(row_contents(t).len(), |r: int| cells_in(row_contents(t)[r]))
}

/// The spans of all cells of a table.
pub open spec fn table_spans(t: Seq<char>) -> Seq<Seq<Spans>> {
    Seq::new(row_contents(t).len(), |r: int| spans_in(row_contents(t)[r]))
}

/// A table with its merged cells expanded. One without rows, or whose columns
/// cannot be counted, stays as it is.
pub open spec fn expanded_table(t: Seq<char>) -> Seq<char> {
    if row_contents(t).len() == 0 || table_cols(table_spans(t)) > usize::MAX {
        t
    } else {
        match first_match(BEFORE_FIRST_ROW@, t) {
            Some(m) => flat_table_html(
                group_text(t, m, 1) + group_text(t, m, 2),
                table_cells(t),
                table_spans(t),
                all_texts(ROW_OPEN@, t),
                occurs_in(t, "</tbody>"@),
            ),
            None => t,
        }
    }
}

/// Expands a single `<table>…</table>`: `colspan` and `rowspan` are resolved
/// into a flat grid. The upper left corner of each merged region keeps the
/// content; the other positions become empty cells.
pub fn expand_single_table(table_html: &str) -> (r: String)
    ensures
        r@ == expanded_table(table_html@),
{
    let t = chars_of(table_html);
    let ms = find_all(TABLE_ROW, table_html);
    let ghost found = found_views(ms@);
    let mut rows: Vec<Vec<CellInfo>> = Vec::new();
    let mut spans: Vec<Vec<Spans>> = Vec::new();
    let mut i: usize = 0;
    while i < ms.len()
        invariant
            t@ == table_html@,
            found == found_views(ms@),
            found == all_matches(TABLE_ROW@, t@),
            well_placed(t@.len(), found),
            i <= ms.len(),
            rows.len() == i,
            spans.len() == i,
            forall|r: int|
                0 <= r < i ==> row_cells_view((#[trigger] rows[r])@) == table_cells(t@)[r],
            forall|r: int| 0 <= r < i ==> (#[trigger] spans[r])@ == table_spans(t@)[r],
        decreases ms.len() - i,
    {
        assert(fits(t@.len(), found[i as int]));
        let content = ms[i].group_text(&t, 1);
        assert(content@ == row_contents(t@)[i as int]);
        let (cells, widths) = read_cells(&content);
        rows.push(cells);
        spans.push(widths);
        i += 1;
    }
    proof {
        assert(cells_view(rows@) =~= table_cells(t@));
        assert(spans_view(spans@) =~= table_spans(t@));
        assert forall|r: int| 0 <= r < cells_view(rows@).len() implies (
        #[trigger] cells_view(rows@)[r]).len() == spans_view(spans@)[r].len() by {
            assert(table_cells(t@)[r].len() == table_spans(t@)[r].len());
        }
    }
    if ms.len() == 0 {
        return table_html.to_owned();
    }
    let opens = matched_texts(ROW_OPEN, table_html);
    let m = match find_first(BEFORE_FIRST_ROW, table_html) {
        Some(m) => m,
        None => {
            return table_html.to_owned();
        },
    };
    let mut prefix: String = m.group_text(&t, 1);
    prefix.append(&m.group_text(&t, 2));
    let has_body = contains(table_html, "</tbody>");
    match flatten_table(&prefix, &rows, &spans, &opens, has_body) {
        Some(html) => html,
        None => table_html.to_owned(),
    }
}

/// What replaces a table.
pub open spec fn expansion() -> spec_fn(Seq<char>, Seq<Option<Span>>) -> Seq<char> {
    |t: Seq<char>, m: Seq<Option<Span>>|
        if has_merged_cells(whole_text(t, m)) {
            expanded_table(whole_text(t, m))
        } else {
            whole_text(t, m)
        }
}

/// A text with the merged cells of its tables expanded.
pub open spec fn cells_expanded(t: Seq<char>) -> Seq<char> {
    rewritten(TABLE_BLOCK@, t, expansion())
}

/// Expands the merged cells of every table into a flat grid.
pub fn expand_merged_cells(html: &str) -> (r: String)
    ensures
        r@ == cells_expanded(html@),
{
    let f = |t: &[char], m: &Found| -> (r: String)
        requires
            fits(t@.len(), m@),
        ensures
            r@ == expansion()(t@, m@),
        {
            let full = m.whole(t);
            if html_has_merged_cells(&full) {
                expand_single_table(&full)
            } else {
                full
            }
        };
    rewrite(TABLE_BLOCK, html, f, Ghost(expansion()))
}

/// Tables without merged cells are left as they are.
pub proof fn law_tables_without_merged_cells_stay(t: Seq<char>)
    requires
        well_placed(t.len(), all_matches(TABLE_BLOCK@, t)),
        forall|i: int|
            0 <= i < all_matches(TABLE_BLOCK@, t).len() ==> !has_merged_cells(
                whole_text(t, #[trigger] all_matches(TABLE_BLOCK@, t)[i]),
            ),
    ensures
        cells_expanded(t) == t,
{
    law_rewriting_by_itself(TABLE_BLOCK@, t, expansion());
}

// ── Header rows ────────────────────────────────────────────────────

/// The pattern of the start of a table head.
pub const TABLE_HEAD: &'static str = r"(?is)<thead\b";

/// The pattern of a whole row.
pub const FIRST_ROW: &'static str = r"(?is)<tr\b[^>]*>.*?</tr>";

/// A row with its cells made header cells.
pub open spec fn header_row(row: Seq<char>) -> Seq<char> {
    replaced(replaced(row, "<td"@, "<th"@), "</td>"@, "</th>"@)
}

/// A table whose first row, at `row` in its content, is made its head.
pub open spec fn headed_table(attrs: Seq<char>, inner: Seq<char>, row: Span) -> Seq<char> {
    "<table"@ + attrs + ">"@ + inner.take(row.start as int) + "<thead>"@ + header_row(
        inner.subrange(row.start as int, row.end as int),
    ) + "</thead>"@ + inner.skip(row.end as int) + "</table>"@
}

/// Makes the row at `row` in the content of a table its head.
pub fn promote_row(attrs: &str, inner: &str, row: Span) -> (r: String)
    requires
        row.start <= row.end <= inner@.len(),
    ensures
        r@ == headed_table(attrs@, inner@, row),
{
    proof {
        reveal_strlit("<td");
        reveal_strlit("</td>");
    }
    let t = chars_of(inner);
    let before = part(&t, 0, row.start);
    let after = part(&t, row.end, t.len());
    assert(before@ =~= t@.take(row.start as int));
    assert(after@ =~= t@.skip(row.end as int));
    let promoted = replace(&part(&t, row.start, row.end), "<td", "<th");
    let promoted = replace(&promoted, "</td>", "</th>");
    let mut out: String = "<table".to_owned();
    out.append(attrs);
    out.append(">");
    out.append(&before);
    out.append("<thead>");
    out.append(&promoted);
    out.append("</thead>");
    out.append(&after);
    out.append("</table>");
    out
}

/// What replaces a table: one without a head gets its first row as head.
pub open spec fn promotion() -> spec_fn(Seq<char>, Seq<Option<Span>>) -> Seq<char> {
    |t: Seq<char>, m: Seq<Option<Span>>|
        {
            let inner = group_text(t, m, 2);
            if first_match(TABLE_HEAD@, inner) is Some {
                whole_text(t, m)
            } else {
                match first_match(FIRST_ROW@, inner) {
                    Some(row) => headed_table(group_text(t, m, 1), inner, whole_span(row)),
                    None => whole_text(t, m),
                }
            }
        }
}

/// A text in which every table has a head.
pub open spec fn rows_promoted(t: Seq<char>) -> Seq<char> {
    rewritten(TABLE_BLOCK@, t, promotion())
}

/// Ensures that every table with rows has a `<thead>`, by promoting its first
/// row (`<td>`s become `<th>`s) if no head is present. Without a head the
/// Markdown converter would leave the table as raw HTML.
pub fn promote_first_row_to_thead(html: &str) -> (r: String)
    ensures
        r@ == rows_promoted(html@),
{
    let f = |t: &[char], m: &Found| -> (r: String)
        requires
            fits(t@.len(), m@),
        ensures
            r@ == promotion()(t@, m@),
        {
            let inner = m.group_text(t, 2);
            if is_match(TABLE_HEAD, &inner) {
                m.whole(t)
            } else {
                match find_first(FIRST_ROW, &inner) {
                    Some(row) => {
                        assert(row@[0] is Some);
                        promote_row(&m.group_text(t, 1), &inner, row.span())
                    },
                    None => m.whole(t),
                }
            }
        };
    rewrite(TABLE_BLOCK, html, f, Ghost(promotion()))
}

} // verus!
