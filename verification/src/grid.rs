//! Layout of table cells that span several rows or columns.

use vstd::prelude::*;

verus! {

/// How many columns and rows a cell covers.
#[derive(Debug, Clone, Copy, PartialEq, Eq, Structural)]
pub struct Spans {
    pub colspan: usize,
    pub rowspan: usize,
}

/// A table being laid out. An entry of the grid is the number of the cell in
/// its own row that stands there.
pub struct Layout {
    /// The positions that merged cells cover, beyond their own corner.
    pub taken: Set<(int, int)>,
    /// How many columns the cells have reached.
    pub cols: int,
    pub grid: Seq<Seq<Option<int>>>,
}

/// The positions that a cell at row `r` and column `c` covers beyond its own,
/// in a table of `n` rows.
pub open spec fn covered(n: int, r: int, c: int, s: Spans) -> Set<(int, int)> {
    Set::new(
        |p: (int, int)|
            r <= p.0 < n && p.0 < r + s.rowspan && c <= p.1 < c + s.colspan && p != (r, c),
    )
}

/// The first column at or after `c` of row `r` that is not taken.
pub open spec fn free_column(taken: Set<(int, int)>, cols: int, r: int, c: int) -> int
    decreases cols - c,
{
    if c < cols && taken.contains((r, c)) {
        free_column(taken, cols, r, c + 1)
    } else {
        c
    }
}

/// A row with cell `k` put at column `c`; columns before it that are not
/// there yet come in empty.
pub open spec fn with_cell(row: Seq<Option<int>>, c: int, k: int) -> Seq<Option<int>> {
    Seq::new(
        if row.len() > c {
            row.len()
        } else {
            (c + 1) as nat
        },
        |j: int|
            if j == c {
                Some(k)
            } else if j < row.len() {
                row[j]
            } else {
                None
            },
    )
}

impl Layout {
    /// The layout with cell `k` of row `r` put at column `c`.
    pub open spec fn placed(self, n: int, r: int, c: int, k: int, s: Spans) -> Layout {
        Layout {
            taken: self.taken.union(covered(n, r, c, s)),
            cols: if c + s.colspan > self.cols {
                c + s.colspan
            } else {
                self.cols
            },
            grid: self.grid.update(r, with_cell(self.grid[r], c, k)),
        }
    }
}

/// The layout after the first `k` cells of row `r`, and the column at which
/// the next one may stand. Each cell goes to the first free column.
pub open spec fn row_laid(l: Layout, n: int, r: int, cells: Seq<Spans>, k: int) -> (Layout, int)
    decreases k,
{
    if k <= 0 {
        (l, 0)
    } else {
        let (m, c) = row_laid(l, n, r, cells, k - 1);
        let at = free_column(m.taken, m.cols, r, c);
        (m.placed(n, r, at, k - 1, cells[k - 1]), at + cells[k - 1].colspan)
    }
}

/// The layout after the first `i` rows.
pub open spec fn rows_laid(rows: Seq<Seq<Spans>>, i: int) -> Layout
    decreases i,
{
    if i <= 0 {
        Layout {
            taken: Set::empty(),
            cols: 0,
            grid: Seq::new(rows.len(), |r: int| Seq::<Option<int>>::empty()),
        }
    } else {
        row_laid(
            rows_laid(rows, i - 1),
            rows.len() as int,
            i - 1,
            rows[i - 1],
            rows[i - 1].len() as int,
        ).0
    }
}

/// How many columns a table has.
pub open spec fn table_cols(rows: Seq<Seq<Spans>>) -> int {
    rows_laid(rows, rows.len() as int).cols
}

/// A row with empty entries up to a number of columns.
pub open spec fn padded(row: Seq<Option<int>>, cols: int) -> Seq<Option<int>> {
    if row.len() >= cols {
        row
    } else {
        Seq::new(
            cols as nat,
            |j: int|
                if j < row.len() {
                    row[j]
                } else {
                    None
                },
        )
    }
}

/// The grid of a table: for every position the number, in its row, of the
/// cell that stands there; none where there is no cell or a merged one
/// reaches.
pub open spec fn table_grid(rows: Seq<Seq<Spans>>) -> Seq<Seq<Option<int>>> {
    let l = rows_laid(rows, rows.len() as int);
    Seq::new(rows.len(), |r: int| padded(l.grid[r], l.cols))
}

// ── Computing the grid ─────────────────────────────────────────────

/// A merged cell: its corner, the row behind it and the column behind it.
struct Region {
    top: usize,
    left: usize,
    bottom: usize,
    right: usize,
}

impl Region {
    spec fn covers(self, p: (int, int)) -> bool {
        self.top <= p.0 < self.bottom && self.left <= p.1 < self.right && p != (
            self.top as int,
            self.left as int,
        )
    }
}

spec fn all_covered(regions: Seq<Region>) -> Set<(int, int)> {
    Set::new(|p: (int, int)| exists|k: int| 0 <= k < regions.len() && (#[trigger] regions[k]).covers(p))
}

/// The entries of a row as numbers.
pub open spec fn row_view(row: Seq<Option<usize>>) -> Seq<Option<int>> {
    Seq::new(
        row.len(),
        |j: int|
            match row[j] {
                Some(k) => Some(k as int),
                None => None,
            },
    )
}

fn is_taken(regions: &Vec<Region>, r: usize, c: usize) -> (b: bool)
    ensures
        b == all_covered(regions@).contains((r as int, c as int)),
{
    let mut k: usize = 0;
    while k < regions.len()
        invariant
            k <= regions.len(),
            forall|j: int| 0 <= j < k ==> !(#[trigger] regions[j]).covers((r as int, c as int)),
        decreases regions.len() - k,
    {
        let g = &regions[k];
        if g.top <= r && r < g.bottom && g.left <= c && c < g.right && !(r == g.top && c == g.left) {
            assert(regions[k as int].covers((r as int, c as int)));
            return true;
        }
        k += 1;
    }
    false
}

/// Fills a row with empty entries up to a length.
fn pad(row: &mut Vec<Option<usize>>, len: usize)
    ensures
        row_view(final(row)@) == padded(row_view(old(row)@), len as int),
        final(row).len() >= len,
        old(row).len() <= len ==> final(row).len() == len,
{
    let ghost before = row@;
    while row.len() < len
        invariant
            row.len() >= before.len(),
            row.len() <= len || row@ == before,
            row@.take(before.len() as int) == before,
            forall|j: int| before.len() <= j < row.len() ==> (#[trigger] row[j]) is None,
        decreases len - row.len(),
    {
        row.push(None);
        assert(row@.take(before.len() as int) =~= before);
    }
    assert forall|j: int| 0 <= j < before.len() implies row[j] == before[j] by {
        assert(row@.take(before.len() as int)[j] == before[j]);
    }
    assert(row_view(row@) =~= padded(row_view(before), len as int));
}

/// The spans of a list of rows.
pub open spec fn spans_view(rows: Seq<Vec<Spans>>) -> Seq<Seq<Spans>> {
    Seq::new(rows.len(), |r: int| rows[r]@)
}

/// The entries of a list of rows as numbers.
pub open spec fn rows_view(grid: Seq<Vec<Option<usize>>>) -> Seq<Seq<Option<int>>> {
    Seq::new(grid.len(), |r: int| row_view(grid[r]@))
}

proof fn lemma_free_column(taken: Set<(int, int)>, cols: int, r: int, c: int)
    ensures
        c <= free_column(taken, cols, r, c),
        free_column(taken, cols, r, c) <= cols || free_column(taken, cols, r, c) == c,
        free_column(taken, cols, r, c) < cols ==> !taken.contains(
            (r, free_column(taken, cols, r, c)),
        ),
    decreases cols - c,
{
    if c < cols && taken.contains((r, c)) {
        lemma_free_column(taken, cols, r, c + 1);
    }
}

proof fn lemma_cols_grow(l: Layout, n: int, r: int, cells: Seq<Spans>, k: int, to: int)
    requires
        k <= to,
    ensures
        row_laid(l, n, r, cells, k).0.cols <= row_laid(l, n, r, cells, to).0.cols,
    decreases to - k,
{
    if k < to {
        lemma_cols_grow(l, n, r, cells, k, to - 1);
    }
}

proof fn lemma_rows_grow(rows: Seq<Seq<Spans>>, i: int, to: int)
    requires
        0 <= i <= to,
    ensures
        rows_laid(rows, i).cols <= rows_laid(rows, to).cols,
    decreases to - i,
{
    if i < to {
        lemma_rows_grow(rows, i, to - 1);
        lemma_cols_grow(
            rows_laid(rows, to - 1),
            rows.len() as int,
            to - 1,
            rows[to - 1],
            0,
            rows[to - 1].len() as int,
        );
    }
}

/// Lays a table out. There is no grid where the columns cannot be counted.
pub fn lay_out(rows: &Vec<Vec<Spans>>) -> (r: Option<Vec<Vec<Option<usize>>>>)
    ensures
        match r {
            Some(grid) => rows_view(grid@) == table_grid(spans_view(rows@)) && table_cols(
                spans_view(rows@),
            ) <= usize::MAX,
            None => table_cols(spans_view(rows@)) > usize::MAX,
        },
{
    let ghost all = spans_view(rows@);
    let n: usize = rows.len();
    let mut regions: Vec<Region> = Vec::new();
    let mut cols: usize = 0;
    let mut grid: Vec<Vec<Option<usize>>> = Vec::new();
    let mut i: usize = 0;
    while i < n
        invariant
            n == rows.len(),
            i <= n,
            grid.len() == i,
            forall|k: int| 0 <= k < i ==> (#[trigger] grid[k]).len() == 0,
        decreases n - i,
    {
        grid.push(Vec::new());
        i += 1;
    }
    assert forall|k: int| 0 <= k < n implies row_view((#[trigger] grid[k])@) == Seq::<
        Option<int>,
    >::empty() by {
        assert(row_view(grid[k]@) =~= Seq::<Option<int>>::empty());
    }
    assert(rows_view(grid@) =~= rows_laid(all, 0).grid);
    assert(all_covered(regions@) =~= Set::<(int, int)>::empty());
    let mut r: usize = 0;
    while r < n
        invariant
            n == rows.len(),
            all == spans_view(rows@),
            r <= n,
            grid.len() == n,
            rows_view(grid@) == rows_laid(all, r as int).grid,
            all_covered(regions@) == rows_laid(all, r as int).taken,
            cols == rows_laid(all, r as int).cols,
        decreases n - r,
    {
        let ghost start = rows_laid(all, r as int);
        let ghost cells = all[r as int];
        let mut c: usize = 0;
        let mut k: usize = 0;
        while k < rows[r].len()
            invariant
                n == rows.len(),
                all == spans_view(rows@),
                r < n,
                start == rows_laid(all, r as int),
                cells == all[r as int],
                cells == rows[r as int]@,
                k <= cells.len(),
                grid.len() == n,
                rows_view(grid@) == row_laid(start, n as int, r as int, cells, k as int).0.grid,
                all_covered(regions@) == row_laid(
                    start,
                    n as int,
                    r as int,
                    cells,
                    k as int,
                ).0.taken,
                cols == row_laid(start, n as int, r as int, cells, k as int).0.cols,
                c == row_laid(start, n as int, r as int, cells, k as int).1,
            decreases cells.len() - k,
        {
            let ghost (m, from) = row_laid(start, n as int, r as int, cells, k as int);
            while c < cols && is_taken(&regions, r, c)
                invariant
                    m.taken == all_covered(regions@),
                    m.cols == cols,
                    free_column(m.taken, m.cols, r as int, from) == free_column(
                        m.taken,
                        m.cols,
                        r as int,
                        c as int,
                    ),
                decreases cols - c,
            {
                c += 1;
            }
            assert(c == free_column(m.taken, m.cols, r as int, from));
            let s = rows[r][k];
            assert(s == cells[k as int]);
            let ghost next = m.placed(n as int, r as int, c as int, k as int, s);
            assert(next == row_laid(start, n as int, r as int, cells, k + 1).0);
            if s.colspan > usize::MAX - c {
                proof {
                    lemma_cols_grow(
                        start,
                        n as int,
                        r as int,
                        cells,
                        k + 1,
                        cells.len() as int,
                    );
                    lemma_rows_grow(all, r + 1, n as int);
                }
                return None;
            }
            let right: usize = c + s.colspan;
            let bottom: usize = if s.rowspan >= n - r {
                n
            } else {
                r + s.rowspan
            };
            if right > cols {
                cols = right;
            }
            let ghost before = regions@;
            if s.colspan > 1 || s.rowspan > 1 {
                let region = Region { top: r, left: c, bottom, right };
                regions.push(region);
                proof {
                    assert forall|p: (int, int)| all_covered(regions@).contains(p) == m.taken.union(
                        covered(n as int, r as int, c as int, s),
                    ).contains(p) by {
                        if all_covered(before).contains(p) {
                            let j = choose|j: int|
                                0 <= j < before.len() && (#[trigger] before[j]).covers(p);
                            assert(regions@[j].covers(p));
                        }
                        if covered(n as int, r as int, c as int, s).contains(p) {
                            assert(regions@[before.len() as int].covers(p));
                        }
                        if all_covered(regions@).contains(p) {
                            let j = choose|j: int|
                                0 <= j < regions@.len() && (#[trigger] regions@[j]).covers(p);
                            if j < before.len() {
                                assert(before[j].covers(p));
                            }
                        }
                    }
                }
            }
            assert(all_covered(regions@) =~= next.taken);
            let mut row: Vec<Option<usize>> = Vec::new();
            std::mem::swap(&mut row, &mut grid[r]);
            let ghost old_row = row@;
            pad(&mut row, c);
            let ghost wide = row@;
            if row.len() == c {
                row.push(Some(k));
            } else {
                row[c] = Some(k);
            }
            proof {
                assert(row_view(wide).len() == wide.len());
                assert forall|j: int| 0 <= j < row@.len() implies row_view(row@)[j] == with_cell(
                    row_view(old_row),
                    c as int,
                    k as int,
                )[j] by {
                    if j < wide.len() {
                        assert(row_view(wide)[j] == padded(row_view(old_row), c as int)[j]);
                    }
                }
            }
            assert(row_view(row@) =~= with_cell(row_view(old_row), c as int, k as int));
            grid[r] = row;
            assert(rows_view(grid@) =~= next.grid);
            c = right;
            k += 1;
        }
        r += 1;
    }
    let mut r: usize = 0;
    let ghost laid = rows_laid(all, n as int);
    while r < n
        invariant
            n == rows.len(),
            all == spans_view(rows@),
            laid == rows_laid(all, n as int),
            cols == laid.cols,
            r <= n,
            grid.len() == n,
            laid.grid.len() == n,
            forall|k: int|
                0 <= k < r ==> row_view((#[trigger] grid[k])@) == padded(
                    laid.grid[k],
                    cols as int,
                ),
            forall|k: int| r <= k < n ==> row_view((#[trigger] grid[k])@) == laid.grid[k],
        decreases n - r,
    {
        let mut row: Vec<Option<usize>> = Vec::new();
        std::mem::swap(&mut row, &mut grid[r]);
        pad(&mut row, cols);
        grid[r] = row;
        r += 1;
    }
    assert(rows_view(grid@) =~= table_grid(all));
    Some(grid)
}

// ── What the grid keeps ────────────────────────────────────────────

/// Whether a cell stands at a position.
pub open spec fn has_cell(grid: Seq<Seq<Option<int>>>, p: (int, int)) -> bool {
    0 <= p.0 < grid.len() && 0 <= p.1 < grid[p.0].len() && grid[p.0][p.1] is Some
}

/// The spans of the cell at a position.
pub open spec fn spans_at(
    rows: Seq<Seq<Spans>>,
    grid: Seq<Seq<Option<int>>>,
    p: (int, int),
) -> Spans {
    rows[p.0][grid[p.0][p.1]->0]
}

/// Whether every cell covers at least one column.
pub open spec fn spans_are_positive(rows: Seq<Seq<Spans>>) -> bool {
    forall|r: int, k: int|
        0 <= r < rows.len() && 0 <= k < rows[r].len() ==> (#[trigger] rows[r][k]).colspan >= 1
}

/// What holds of a layout while row `r` is laid out up to column `c`.
spec fn sound(l: Layout, rows: Seq<Seq<Spans>>, r: int, c: int) -> bool {
    let n = rows.len() as int;
    &&& l.grid.len() == n
    &&& 0 <= c
    &&& 0 <= l.cols
    &&& forall|p: (int, int)| #[trigger] l.taken.contains(p) ==> 0 <= p.1 < l.cols
    &&& forall|i: int| r < i < n ==> (#[trigger] l.grid[i]).len() == 0
    &&& forall|p: (int, int)| #[trigger] has_cell(l.grid, p) ==> p.0 < r || p.1 <= c
    &&& forall|p: (int, int)| #[trigger]
        has_cell(l.grid, p) ==> 0 <= l.grid[p.0][p.1]->0 < rows[p.0].len()
    &&& forall|p: (int, int), q: (int, int)|
        #![trigger has_cell(l.grid, p), covered(n, p.0, p.1, spans_at(rows, l.grid, p)).contains(q)]
        has_cell(l.grid, p) && covered(n, p.0, p.1, spans_at(rows, l.grid, p)).contains(q)
            ==> l.taken.contains(q) && !has_cell(l.grid, q)
}

proof fn lemma_placed_sound(l: Layout, rows: Seq<Seq<Spans>>, r: int, from: int, k: int)
    requires
        0 <= r < rows.len(),
        0 <= k < rows[r].len(),
        sound(l, rows, r, from),
    ensures
        ({
            let at = free_column(l.taken, l.cols, r, from);
            let s = rows[r][k];
            sound(l.placed(rows.len() as int, r, at, k, s), rows, r, at + s.colspan)
        }),
{
    let n = rows.len() as int;
    let at = free_column(l.taken, l.cols, r, from);
    let s = rows[r][k];
    let m = l.placed(n, r, at, k, s);
    lemma_free_column(l.taken, l.cols, r, from);
    assert(!l.taken.contains((r, at)));
    assert(m.grid[r] == with_cell(l.grid[r], at, k));
    assert forall|p: (int, int)| #[trigger] has_cell(m.grid, p) implies (p == (r, at) || (has_cell(
        l.grid,
        p,
    ) && m.grid[p.0][p.1] == l.grid[p.0][p.1])) by {}
    assert forall|p: (int, int)| #[trigger] has_cell(m.grid, p) implies p.0 < r || p.1 <= at
        + s.colspan by {
        if p != (r, at) {
            assert(has_cell(l.grid, p));
        }
    }
    assert forall|p: (int, int)| #[trigger] has_cell(m.grid, p) implies 0 <= m.grid[p.0][p.1]->0
        < rows[p.0].len() by {
        if p != (r, at) {
            assert(has_cell(l.grid, p));
        }
    }
    assert forall|p: (int, int), q: (int, int)|
        #![trigger has_cell(m.grid, p), covered(n, p.0, p.1, spans_at(rows, m.grid, p)).contains(q)]
        has_cell(m.grid, p) && covered(n, p.0, p.1, spans_at(rows, m.grid, p)).contains(
            q,
        ) implies m.taken.contains(q) && !has_cell(m.grid, q) by {
        if p == (r, at) {
            assert(spans_at(rows, m.grid, p) == s);
            if has_cell(m.grid, q) {
                assert(q != (r, at));
                assert(has_cell(l.grid, q));
                assert(q.0 == r && q.1 > at);
            }
        } else {
            assert(has_cell(l.grid, p));
            assert(spans_at(rows, m.grid, p) == spans_at(rows, l.grid, p));
            assert(covered(n, p.0, p.1, spans_at(rows, l.grid, p)).contains(q));
            assert(l.taken.contains(q) && !has_cell(l.grid, q));
            assert(q != (r, at));
        }
    }
    assert forall|i: int| r < i < n implies (#[trigger] m.grid[i]).len() == 0 by {
        assert(m.grid[i] == l.grid[i]);
    }
}

proof fn lemma_row_sound(l: Layout, rows: Seq<Seq<Spans>>, r: int, k: int)
    requires
        0 <= r < rows.len(),
        0 <= k <= rows[r].len(),
        sound(l, rows, r, 0),
    ensures
        sound(
            row_laid(l, rows.len() as int, r, rows[r], k).0,
            rows,
            r,
            row_laid(l, rows.len() as int, r, rows[r], k).1,
        ),
    decreases k,
{
    if k > 0 {
        lemma_row_sound(l, rows, r, k - 1);
        let (m, c) = row_laid(l, rows.len() as int, r, rows[r], k - 1);
        lemma_placed_sound(m, rows, r, c, k - 1);
    }
}

proof fn lemma_rows_sound(rows: Seq<Seq<Spans>>, i: int)
    requires
        0 <= i <= rows.len(),
    ensures
        sound(rows_laid(rows, i), rows, i, 0),
    decreases i,
{
    if i > 0 {
        lemma_rows_sound(rows, i - 1);
        lemma_row_sound(rows_laid(rows, i - 1), rows, i - 1, rows[i - 1].len() as int);
        let l = rows_laid(rows, i);
        if i < rows.len() {
            assert(l.grid[i].len() == 0);
        }
        assert forall|p: (int, int)| #[trigger] has_cell(l.grid, p) implies p.0 < i by {
            if p.0 >= i {
                assert(l.grid[p.0].len() == 0);
            }
        }
    } else {
        let l = rows_laid(rows, 0);
        assert forall|p: (int, int)| !(#[trigger] has_cell(l.grid, p)) by {
            if 0 <= p.0 < rows.len() {
                assert(l.grid[p.0].len() == 0);
            }
        }
    }
}

proof fn lemma_padding_adds_no_cell(rows: Seq<Seq<Spans>>)
    ensures
        ({
            let l = rows_laid(rows, rows.len() as int);
            forall|p: (int, int)| #[trigger]
                has_cell(table_grid(rows), p) ==> has_cell(l.grid, p) && table_grid(
                    rows,
                )[p.0][p.1] == l.grid[p.0][p.1]
        }),
{
    lemma_rows_sound(rows, rows.len() as int);
}

/// Every entry of the grid is the number of a cell of its row.
pub proof fn law_grid_entries_are_cells(rows: Seq<Seq<Spans>>, p: (int, int))
    requires
        has_cell(table_grid(rows), p),
    ensures
        0 <= table_grid(rows)[p.0][p.1]->0 < rows[p.0].len(),
{
    lemma_rows_sound(rows, rows.len() as int);
    lemma_padding_adds_no_cell(rows);
    assert(has_cell(rows_laid(rows, rows.len() as int).grid, p));
}

/// A merged cell keeps its content in its upper left corner: every other
/// position that it covers is in the grid and is empty.
pub proof fn law_merged_cell_leaves_rest_empty(
    rows: Seq<Seq<Spans>>,
    p: (int, int),
    q: (int, int),
)
    requires
        has_cell(table_grid(rows), p),
        covered(rows.len() as int, p.0, p.1, spans_at(rows, table_grid(rows), p)).contains(q),
    ensures
        0 <= q.0 < table_grid(rows).len(),
        0 <= q.1 < table_grid(rows)[q.0].len(),
        table_grid(rows)[q.0][q.1] is None,
{
    let n = rows.len() as int;
    let l = rows_laid(rows, n);
    lemma_rows_sound(rows, n);
    lemma_padding_adds_no_cell(rows);
    assert(has_cell(l.grid, p));
    assert(spans_at(rows, table_grid(rows), p) == spans_at(rows, l.grid, p));
    assert(l.taken.contains(q) && !has_cell(l.grid, q));
    assert(!has_cell(table_grid(rows), q));
}

/// The rows and columns that a cell spans hold nothing but the cell: those
/// below it and those to its right, as far as the table goes.
pub proof fn law_merged_cell_covers_its_spans(
    rows: Seq<Seq<Spans>>,
    r: int,
    c: int,
    down: int,
    right: int,
)
    requires
        has_cell(table_grid(rows), (r, c)),
        0 <= down < rows[r][table_grid(rows)[r][c]->0].rowspan,
        0 <= right < rows[r][table_grid(rows)[r][c]->0].colspan,
        down > 0 || right > 0,
        r + down < rows.len(),
    ensures
        c + right < table_grid(rows)[r + down].len(),
        table_grid(rows)[r + down][c + right] is None,
{
    law_merged_cell_leaves_rest_empty(rows, (r, c), (r + down, c + right));
}

/// Whether the cells of a row stand in the order of their numbers.
pub open spec fn is_ordered(row: Seq<Option<int>>) -> bool {
    forall|i: int, j: int|
        #![trigger row[i], row[j]]
        0 <= i < j < row.len() && row[i] is Some && row[j] is Some ==> row[i]->0 < row[j]->0
}

/// While row `r` is laid out, its first `k` cells stand in order before
/// column `c`, no other cell stands in it, and no row is longer than the
/// columns reached.
spec fn in_order(l: Layout, rows: Seq<Seq<Spans>>, r: int, c: int, k: int) -> bool {
    &&& 0 <= c <= l.cols
    &&& l.grid.len() == rows.len()
    &&& forall|i: int| 0 <= i < rows.len() ==> (#[trigger] l.grid[i]).len() <= l.cols
    &&& forall|j: int| 0 <= j < l.grid[r].len() ==> (#[trigger] l.grid[r][j]) is Some ==> j < c
    &&& forall|j: int|
        0 <= j < l.grid[r].len() ==> (#[trigger] l.grid[r][j]) is Some ==> l.grid[r][j]->0 < k
    &&& forall|x: int|
        0 <= x < k ==> #[trigger] l.grid[r].contains(Some(x))
    &&& is_ordered(l.grid[r])
}

proof fn lemma_row_in_order(l: Layout, rows: Seq<Seq<Spans>>, r: int, k: int)
    requires
        0 <= r < rows.len(),
        0 <= k <= rows[r].len(),
        spans_are_positive(rows),
        sound(l, rows, r, 0),
        l.grid[r].len() == 0,
        forall|i: int| 0 <= i < rows.len() ==> (#[trigger] l.grid[i]).len() <= l.cols,
    ensures
        ({
            let (m, c) = row_laid(l, rows.len() as int, r, rows[r], k);
            in_order(m, rows, r, c, k) && forall|i: int|
                0 <= i < rows.len() && i != r ==> #[trigger] m.grid[i] == l.grid[i]
        }),
    decreases k,
{
    if k > 0 {
        lemma_row_in_order(l, rows, r, k - 1);
        lemma_row_sound(l, rows, r, k - 1);
        let n = rows.len() as int;
        let (m, c) = row_laid(l, n, r, rows[r], k - 1);
        let at = free_column(m.taken, m.cols, r, c);
        let s = rows[r][k - 1];
        let next = m.placed(n, r, at, k - 1, s);
        lemma_free_column(m.taken, m.cols, r, c);
        assert(next.grid[r] == with_cell(m.grid[r], at, k - 1));
        assert(s.colspan >= 1);
        assert forall|x: int| 0 <= x < k implies #[trigger] next.grid[r].contains(Some(x)) by {
            if x < k - 1 {
                assert(m.grid[r].contains(Some(x)));
                let j = choose|j: int| 0 <= j < m.grid[r].len() && m.grid[r][j] == Some(x);
                assert(m.grid[r][j] is Some);
                assert(next.grid[r][j] == Some(x));
            } else {
                assert(next.grid[r][at] == Some(x));
            }
        }
        assert forall|j: int| 0 <= j < next.grid[r].len() && (
        #[trigger] next.grid[r][j]) is Some implies j < at + s.colspan by {
            if j != at && j < m.grid[r].len() {
                assert(m.grid[r][j] is Some ==> j < c);
            }
        }
        assert forall|j: int| 0 <= j < next.grid[r].len() && (
        #[trigger] next.grid[r][j]) is Some implies next.grid[r][j]->0 < k by {
            if j != at && j < m.grid[r].len() {
                assert(m.grid[r][j] is Some ==> m.grid[r][j]->0 < k - 1);
            }
        }
        assert forall|i: int, j: int|
            #![trigger next.grid[r][i], next.grid[r][j]]
            0 <= i < j < next.grid[r].len() && next.grid[r][i] is Some
                && next.grid[r][j] is Some implies next.grid[r][i]->0 < next.grid[r][j]->0 by {
            if i != at {
                assert(m.grid[r][i] is Some && m.grid[r][i]->0 < k - 1);
            }
            if j != at {
                assert(m.grid[r][j] is Some && j < c);
            }
        }
        assert forall|i: int| 0 <= i < rows.len() implies (#[trigger] next.grid[i]).len()
            <= next.cols by {
            if i != r {
                assert(next.grid[i] == m.grid[i]);
            } else {
                assert(m.grid[r].len() <= m.cols);
            }
        }
    }
}

proof fn lemma_rows_in_order(rows: Seq<Seq<Spans>>, i: int)
    requires
        0 <= i <= rows.len(),
        spans_are_positive(rows),
    ensures
        ({
            let l = rows_laid(rows, i);
            &&& l.grid.len() == rows.len()
            &&& forall|r: int| 0 <= r < rows.len() ==> (#[trigger] l.grid[r]).len() <= l.cols
            &&& forall|r: int, k: int|
                0 <= r < i && 0 <= k < rows[r].len() ==> #[trigger] l.grid[r].contains(Some(k))
            &&& forall|r: int| 0 <= r < i ==> is_ordered(#[trigger] l.grid[r])
        }),
    decreases i,
{
    if i > 0 {
        lemma_rows_in_order(rows, i - 1);
        lemma_rows_sound(rows, i - 1);
        let before = rows_laid(rows, i - 1);
        lemma_empty_below(rows, i - 1);
        lemma_row_in_order(before, rows, i - 1, rows[i - 1].len() as int);
        let l = rows_laid(rows, i);
        assert forall|r: int, k: int|
            0 <= r < i && 0 <= k < rows[r].len() implies #[trigger] l.grid[r].contains(Some(k)) by {
            if r < i - 1 {
                assert(l.grid[r] == before.grid[r]);
            }
        }
        assert forall|r: int| 0 <= r < i implies is_ordered(#[trigger] l.grid[r]) by {
            if r < i - 1 {
                assert(l.grid[r] == before.grid[r]);
            }
        }
    }
}

proof fn lemma_empty_below(rows: Seq<Seq<Spans>>, i: int)
    requires
        0 <= i < rows.len(),
    ensures
        rows_laid(rows, i).grid.len() == rows.len(),
        rows_laid(rows, i).grid[i].len() == 0,
    decreases i,
{
    if i > 0 {
        lemma_rows_sound(rows, i - 1);
        lemma_row_sound(rows_laid(rows, i - 1), rows, i - 1, rows[i - 1].len() as int);
    }
}

/// Where every cell covers a column, the grid is rectangular.
pub proof fn law_grid_is_rectangular(rows: Seq<Seq<Spans>>, r: int)
    requires
        spans_are_positive(rows),
        0 <= r < rows.len(),
    ensures
        table_grid(rows).len() == rows.len(),
        table_grid(rows)[r].len() == table_cols(rows),
{
    lemma_rows_in_order(rows, rows.len() as int);
    lemma_rows_sound(rows, rows.len() as int);
    let l = rows_laid(rows, rows.len() as int);
    assert(l.grid[r].len() <= l.cols);
}

/// Where every cell covers a column, no cell is lost: each stands in the row
/// that it was written in.
pub proof fn law_grid_keeps_every_cell(rows: Seq<Seq<Spans>>, r: int, k: int)
    requires
        spans_are_positive(rows),
        0 <= r < rows.len(),
        0 <= k < rows[r].len(),
    ensures
        table_grid(rows)[r].contains(Some(k)),
{
    lemma_rows_in_order(rows, rows.len() as int);
    let l = rows_laid(rows, rows.len() as int);
    assert(l.grid[r].contains(Some(k)));
    let j = choose|j: int| 0 <= j < l.grid[r].len() && l.grid[r][j] == Some(k);
    assert(table_grid(rows)[r][j] == Some(k));
}

/// Where every cell covers a column, the cells of a row stand in the order in
/// which they were written, each of them once.
pub proof fn law_cells_stand_in_order(rows: Seq<Seq<Spans>>, r: int)
    requires
        spans_are_positive(rows),
        0 <= r < rows.len(),
    ensures
        is_ordered(table_grid(rows)[r]),
        forall|i: int, j: int|
            #![trigger table_grid(rows)[r][i], table_grid(rows)[r][j]]
            0 <= i < j < table_grid(rows)[r].len() && table_grid(rows)[r][i] is Some
                ==> table_grid(rows)[r][i] != table_grid(rows)[r][j],
{
    lemma_rows_in_order(rows, rows.len() as int);
    let l = rows_laid(rows, rows.len() as int);
    let row = table_grid(rows)[r];
    assert(is_ordered(l.grid[r]));
    assert forall|i: int, j: int|
        #![trigger row[i], row[j]]
        0 <= i < j < row.len() && row[i] is Some && row[j] is Some implies row[i]->0
        < row[j]->0 by {
        assert(l.grid[r][i] == row[i] && l.grid[r][j] == row[j]);
    }
}

/// Whether every cell covers at least one column and one row.
pub open spec fn spans_are_full(rows: Seq<Seq<Spans>>) -> bool {
    forall|r: int, k: int|
        0 <= r < rows.len() && 0 <= k < rows[r].len() ==> (#[trigger] rows[r][k]).colspan >= 1
            && rows[r][k].rowspan >= 1
}

/// Whether the cell at a position covers another position.
pub open spec fn cell_covers(
    rows: Seq<Seq<Spans>>,
    grid: Seq<Seq<Option<int>>>,
    p: (int, int),
    q: (int, int),
) -> bool {
    let spans = spans_at(rows, grid, p);
    &&& has_cell(grid, p)
    &&& p != q
    &&& p.0 <= q.0 < p.0 + spans.rowspan
    &&& p.1 <= q.1 < p.1 + spans.colspan
    &&& q.0 < rows.len()
}

/// While row `r` is laid out up to column `c`, every position that is taken is
/// covered by a cell, and no position before `c` is left open.
spec fn gapless(l: Layout, rows: Seq<Seq<Spans>>, r: int, c: int) -> bool {
    &&& forall|q: (int, int)| #[trigger]
        l.taken.contains(q) ==> exists|p: (int, int)| #[trigger] cell_covers(rows, l.grid, p, q)
    &&& forall|p: (int, int)| #[trigger]
        has_cell(l.grid, p) ==> p.0 < r || (p.0 == r && p.1 < c)
    &&& forall|j: int|
        0 <= j < c ==> #[trigger] has_cell(l.grid, (r, j)) || l.taken.contains((r, j))
    &&& r < rows.len() ==> l.grid[r].len() <= c
    &&& forall|i: int, j: int|
        0 <= i < r && 0 <= j < l.grid[i].len() ==> #[trigger] has_cell(l.grid, (i, j))
            || l.taken.contains((i, j))
}

proof fn lemma_passed_columns(taken: Set<(int, int)>, cols: int, r: int, c: int, j: int)
    requires
        c <= j < free_column(taken, cols, r, c),
    ensures
        taken.contains((r, j)),
    decreases cols - c,
{
    if c < j {
        lemma_passed_columns(taken, cols, r, c + 1, j);
    }
}

proof fn lemma_placed_gapless(l: Layout, rows: Seq<Seq<Spans>>, r: int, from: int, k: int)
    requires
        0 <= r < rows.len(),
        0 <= k < rows[r].len(),
        spans_are_full(rows),
        sound(l, rows, r, from),
        gapless(l, rows, r, from),
    ensures
        ({
            let at = free_column(l.taken, l.cols, r, from);
            let s = rows[r][k];
            gapless(l.placed(rows.len() as int, r, at, k, s), rows, r, at + s.colspan)
        }),
{
    let n = rows.len() as int;
    let at = free_column(l.taken, l.cols, r, from);
    let s = rows[r][k];
    let m = l.placed(n, r, at, k, s);
    lemma_free_column(l.taken, l.cols, r, from);
    assert(s.colspan >= 1 && s.rowspan >= 1);
    assert(m.grid[r] == with_cell(l.grid[r], at, k));
    assert(has_cell(m.grid, (r, at)));
    assert(spans_at(rows, m.grid, (r, at)) == s);
    assert forall|p: (int, int)| #[trigger] has_cell(l.grid, p) implies has_cell(m.grid, p)
        && m.grid[p.0][p.1] == l.grid[p.0][p.1] by {
        if p.0 == r {
            assert(p.1 != at);
        } else {
            assert(m.grid[p.0] == l.grid[p.0]);
        }
    }
    assert forall|p: (int, int)| #[trigger] has_cell(m.grid, p) implies p.0 < r || (p.0 == r && p.1
        < at + s.colspan) by {
        if p != (r, at) {
            if p.0 == r {
                assert(has_cell(l.grid, p));
            } else {
                assert(m.grid[p.0] == l.grid[p.0]);
                assert(has_cell(l.grid, p));
            }
        }
    }
    assert forall|q: (int, int)| #[trigger] m.taken.contains(q) implies exists|p: (int, int)|
        #[trigger] cell_covers(rows, m.grid, p, q) by {
        if l.taken.contains(q) {
            let p = choose|p: (int, int)| #[trigger] cell_covers(rows, l.grid, p, q);
            assert(spans_at(rows, m.grid, p) == spans_at(rows, l.grid, p));
            assert(cell_covers(rows, m.grid, p, q));
        } else {
            assert(cell_covers(rows, m.grid, (r, at), q));
        }
    }
    assert forall|j: int| 0 <= j < at + s.colspan implies #[trigger] has_cell(m.grid, (r, j))
        || m.taken.contains((r, j)) by {
        if j < from {
            assert(has_cell(l.grid, (r, j)) || l.taken.contains((r, j)));
        } else if j < at {
            lemma_passed_columns(l.taken, l.cols, r, from, j);
        } else if j > at {
            assert(covered(n, r, at, s).contains((r, j)));
        }
    }
    assert forall|i: int, j: int| 0 <= i < r && 0 <= j < m.grid[i].len() implies #[trigger] has_cell(
        m.grid,
        (i, j),
    ) || m.taken.contains((i, j)) by {
        assert(m.grid[i] == l.grid[i]);
        assert(has_cell(l.grid, (i, j)) || l.taken.contains((i, j)));
    }
}

proof fn lemma_row_gapless(l: Layout, rows: Seq<Seq<Spans>>, r: int, k: int)
    requires
        0 <= r < rows.len(),
        0 <= k <= rows[r].len(),
        spans_are_full(rows),
        sound(l, rows, r, 0),
        gapless(l, rows, r, 0),
    ensures
        gapless(
            row_laid(l, rows.len() as int, r, rows[r], k).0,
            rows,
            r,
            row_laid(l, rows.len() as int, r, rows[r], k).1,
        ),
    decreases k,
{
    if k > 0 {
        lemma_row_gapless(l, rows, r, k - 1);
        lemma_row_sound(l, rows, r, k - 1);
        let (m, c) = row_laid(l, rows.len() as int, r, rows[r], k - 1);
        lemma_placed_gapless(m, rows, r, c, k - 1);
    }
}

proof fn lemma_rows_gapless(rows: Seq<Seq<Spans>>, i: int)
    requires
        0 <= i <= rows.len(),
        spans_are_full(rows),
    ensures
        gapless(rows_laid(rows, i), rows, i, 0),
    decreases i,
{
    if i > 0 {
        let before = rows_laid(rows, i - 1);
        lemma_rows_gapless(rows, i - 1);
        lemma_rows_sound(rows, i - 1);
        lemma_rows_sound(rows, i);
        lemma_row_gapless(before, rows, i - 1, rows[i - 1].len() as int);
        lemma_row_sound(before, rows, i - 1, rows[i - 1].len() as int);
        let l = rows_laid(rows, i);
        if i < rows.len() {
            lemma_empty_below(rows, i);
        }
        assert forall|a: int, j: int| 0 <= a < i && 0 <= j < l.grid[a].len() implies #[trigger] has_cell(
            l.grid,
            (a, j),
        ) || l.taken.contains((a, j)) by {}
    } else {
        let l = rows_laid(rows, 0);
        lemma_rows_sound(rows, 0);
    }
}

/// Where every cell covers a column and a row, a row has no gaps: a position
/// before one of its cells holds a cell or is covered by a merged one.
pub proof fn law_rows_have_no_gaps(rows: Seq<Seq<Spans>>, r: int, c: int, d: int)
    requires
        spans_are_full(rows),
        0 <= c < d,
        has_cell(table_grid(rows), (r, d)),
        !has_cell(table_grid(rows), (r, c)),
    ensures
        exists|p: (int, int)| #[trigger] cell_covers(rows, table_grid(rows), p, (r, c)),
{
    let n = rows.len() as int;
    let l = rows_laid(rows, n);
    lemma_rows_gapless(rows, n);
    lemma_rows_sound(rows, n);
    lemma_padding_adds_no_cell(rows);
    assert(has_cell(l.grid, (r, d)));
    assert(!has_cell(l.grid, (r, c))) by {
        if has_cell(l.grid, (r, c)) {
            assert(table_grid(rows)[r][c] == l.grid[r][c]);
        }
    }
    assert(has_cell(l.grid, (r, c)) || l.taken.contains((r, c)));
    let p = choose|p: (int, int)| #[trigger] cell_covers(rows, l.grid, p, (r, c));
    assert(table_grid(rows)[p.0][p.1] == l.grid[p.0][p.1]);
    assert(cell_covers(rows, table_grid(rows), p, (r, c)));
}

/// Where no cell is merged, every cell stands in the column of its number.
pub proof fn law_plain_rows_stay_as_they_are(rows: Seq<Seq<Spans>>, r: int, k: int)
    requires
        forall|i: int, j: int|
            0 <= i < rows.len() && 0 <= j < rows[i].len() ==> (#[trigger] rows[i][j]).colspan == 1
                && rows[i][j].rowspan == 1,
        0 <= r < rows.len(),
        0 <= k < rows[r].len(),
    ensures
        has_cell(table_grid(rows), (r, k)),
        table_grid(rows)[r][k] == Some(k),
    decreases k,
{
    assert(spans_are_full(rows));
    assert(spans_are_positive(rows));
    law_grid_keeps_every_cell(rows, r, k);
    law_cells_stand_in_order(rows, r);
    let grid = table_grid(rows);
    let row = grid[r];
    let j = choose|j: int| 0 <= j < row.len() && row[j] == Some(k);
    assert(has_cell(grid, (r, j)));
    if k > 0 {
        law_plain_rows_stay_as_they_are(rows, r, k - 1);
        assert(row[k - 1] == Some(k - 1));
    }
    if j < k {
        law_plain_rows_stay_as_they_are(rows, r, j);
    }
    if j > k {
        assert(!has_cell(grid, (r, k))) by {
            if has_cell(grid, (r, k)) {
                assert(row[k] is Some);
                assert(row[k]->0 < row[j]->0);
                if k > 0 {
                    assert(row[k - 1]->0 < row[k]->0);
                }
                law_grid_entries_are_cells(rows, (r, k));
            }
        }
        law_rows_have_no_gaps(rows, r, k, j);
        let p = choose|p: (int, int)| #[trigger] cell_covers(rows, grid, p, (r, k));
        law_grid_entries_are_cells(rows, p);
        assert(spans_at(rows, grid, p).colspan == 1);
    }
}

} // verus!
