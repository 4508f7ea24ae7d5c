//! Tables: grids, merged cells, nested tables.

use confluence2md::cells::{
    expand_merged_cells, expand_single_table, flatten_table, html_has_merged_cells,
    promote_first_row_to_thead, promote_row, render_rows, CellInfo,
};
use confluence2md::grid::{lay_out, Spans};
use confluence2md::pattern::Span;
use confluence2md::tables::{
    extract_nested_tables_from_table, find_table_tags, find_top_level_table_ranges,
    first_direct_nested_table_range, is_close_table_tag, nested_among, top_level_ranges, TableTag,
};

fn s(colspan: usize, rowspan: usize) -> Spans {
    Spans { colspan, rowspan }
}

fn cell(tag: &str, attrs: &str, content: &str) -> CellInfo {
    CellInfo { tag: tag.to_owned(), attrs: attrs.to_owned(), content: content.to_owned() }
}

#[test]
fn plain_rows_stay_in_place() {
    let grid = lay_out(&vec![vec![s(1, 1), s(1, 1)], vec![s(1, 1)]]).unwrap();
    assert_eq!(grid, vec![vec![Some(0), Some(1)], vec![Some(0), None]]);
}

#[test]
fn merged_cells_leave_gaps() {
    let grid = lay_out(&vec![
        vec![s(2, 1), s(1, 2)],
        vec![s(1, 1), s(1, 1)],
        vec![s(1, 1), s(1, 1), s(1, 1)],
    ])
    .unwrap();
    assert_eq!(
        grid,
        vec![
            vec![Some(0), None, Some(1)],
            vec![Some(0), Some(1), None],
            vec![Some(0), Some(1), Some(2)],
        ]
    );
    let grid = lay_out(&vec![vec![s(2, 2), s(1, 1)], vec![s(1, 1)]]).unwrap();
    assert_eq!(grid, vec![vec![Some(0), None, Some(1)], vec![None, None, Some(0)]]);
}

#[test]
fn columns_beyond_counting_give_no_grid() {
    assert!(lay_out(&vec![vec![s(usize::MAX, 1), s(1, 1)]]).is_none());
    assert!(lay_out(&vec![vec![s(1, usize::MAX)], vec![]]).is_some());
    assert_eq!(lay_out(&vec![vec![s(0, 1), s(1, 1)]]).unwrap(), vec![vec![Some(1)]]);
    assert!(lay_out(&Vec::new()).unwrap().is_empty());
}

#[test]
fn rows_are_written_with_empty_cells() {
    let grid = vec![vec![Some(0), None], vec![None, None]];
    let rows = vec![vec![cell("th", " class=\"x\"", "A")], vec![]];
    assert_eq!(
        render_rows(&grid, &rows, &vec!["<tr id=\"r\">".to_owned()]),
        "<tr id=\"r\"><th class=\"x\">A</th><th></th></tr><tr><td></td><td></td></tr>"
    );
    let blank = vec![vec![cell("td", "  ", "B")]];
    assert_eq!(render_rows(&vec![vec![Some(0)]], &blank, &Vec::new()), "<tr><td>B</td></tr>");
}

#[test]
fn a_table_is_flattened() {
    let html = flatten_table(
        "<table><tbody>",
        &vec![vec![cell("td", "", "x")], vec![cell("td", "", "y"), cell("td", "", "z")]],
        &vec![vec![s(2, 1)], vec![s(1, 1), s(1, 1)]],
        &Vec::new(),
        true,
    )
    .unwrap();
    assert_eq!(
        html,
        "<table><tbody><tr><td>x</td><td></td></tr><tr><td>y</td><td>z</td></tr></tbody></table>"
    );
}

#[test]
fn span_attributes_go() {
    let html = r#"<table class="t"><tbody><tr><TD colspan="2" class="c">a</TD></tr><tr><td>b</td><td rowspan='2'>c</td></tr></tbody></table>"#;
    assert!(html_has_merged_cells(html));
    assert_eq!(
        expand_single_table(html),
        r#"<table class="t"><tbody><tr><td class="c">a</td><td></td></tr><tr><td>b</td><td>c</td></tr></tbody></table>"#
    );
    assert_eq!(expand_single_table("<table></table>"), "<table></table>");
    let plain = "<p>x</p><table><tr><td>a</td></tr></table>";
    assert_eq!(expand_merged_cells(plain), plain);
    assert!(!html_has_merged_cells(plain));
    let huge = format!(
        r#"<table><tr><td colspan="{}">a</td><td colspan="2">b</td></tr></table>"#,
        usize::MAX
    );
    assert_eq!(expand_single_table(&huge), huge);
}

#[test]
fn first_row_becomes_head() {
    assert_eq!(
        promote_first_row_to_thead("<table a><tr><td>1</td></tr><tr><td>2</td></tr></table>"),
        "<table a><thead><tr><th>1</th></tr></thead><tr><td>2</td></tr></table>"
    );
    let headed = "<table><thead><tr><th>1</th></tr></thead></table>";
    assert_eq!(promote_first_row_to_thead(headed), headed);
    assert_eq!(promote_first_row_to_thead("<table></table>"), "<table></table>");
    assert_eq!(
        promote_row("", "x<tr><td>1</td></tr>y", Span { start: 1, end: 20 }),
        "<table>x<thead><tr><th>1</th></tr></thead>y</table>"
    );
}

#[test]
fn table_tags_are_found() {
    assert!(is_close_table_tag(" </table>"));
    assert!(!is_close_table_tag("<table>"));
    let tags = find_table_tags("é<table x></TABLE>");
    assert_eq!(tags.len(), 2);
    assert_eq!((tags[0].start, tags[0].end, tags[0].close), (1, 10, false));
    assert_eq!((tags[1].start, tags[1].end, tags[1].close), (10, 18, true));
}

#[test]
fn top_level_tables_are_found() {
    let html = "</table>a<table><table></table></table>b<table></table><table>";
    let ranges = find_top_level_table_ranges(html);
    assert_eq!(ranges, vec![Span { start: 9, end: 39 }, Span { start: 40, end: 55 }]);
    assert!(find_top_level_table_ranges("<p></p>").is_empty());
}

#[test]
fn nested_tables_are_taken_out() {
    let html = "<table>1<table>2<table>3</table></table>4<table>5</table></table>";
    assert_eq!(first_direct_nested_table_range(html), Some(Span { start: 8, end: 40 }));
    let mut counter = 0;
    let (outer, tables) = extract_nested_tables_from_table(html, &mut counter);
    assert_eq!(outer, "<table>1(*2)4(*3)</table>");
    assert_eq!(counter, 3);
    let pairs: Vec<(&str, &str)> =
        tables.iter().map(|t| (t.marker.as_str(), t.html.as_str())).collect();
    assert_eq!(
        pairs,
        vec![
            ("(*2)", "<table>2(*1)</table>"),
            ("(*1)", "<table>3</table>"),
            ("(*3)", "<table>5</table>"),
        ]
    );
    for t in &tables {
        assert_eq!(first_direct_nested_table_range(&t.html), None);
    }
    assert_eq!(first_direct_nested_table_range(&outer), None);
}

#[test]
fn ranges_among_tags() {
    let tag = |at: usize, close: bool| TableTag { start: at, end: at + 1, close };
    let tags = vec![tag(0, true), tag(2, false), tag(4, false), tag(6, true), tag(8, true), tag(9, true)];
    assert_eq!(top_level_ranges(&tags), vec![Span { start: 2, end: 9 }]);
    assert_eq!(nested_among(&tags), Some(Span { start: 4, end: 7 }));
    assert_eq!(nested_among(&vec![tag(0, false), tag(2, false)]), None);
    assert!(top_level_ranges(&Vec::new()).is_empty());
}

#[test]
fn extracted_tables_can_be_put_back() {
    let html = "<table>1<table>2<table>3</table></table>4<table>5</table></table>";
    let mut counter = 0;
    let (outer, tables) = extract_nested_tables_from_table(html, &mut counter);
    let mut text = outer;
    for n in (1..=counter).rev() {
        let marker = format!("(*{n})");
        let table = tables.iter().find(|t| t.marker == marker).unwrap();
        text = text.replace(&marker, &table.html);
    }
    assert_eq!(text, html);
}

#[test]
fn cells_stand_in_order() {
    let grid = lay_out(&vec![vec![s(1, 3), s(2, 1), s(1, 2)], vec![s(1, 1), s(1, 1)], vec![s(3, 1)]])
        .unwrap();
    for (row, cells) in grid.iter().zip([3usize, 2, 1]) {
        let numbers: Vec<usize> = row.iter().filter_map(|c| *c).collect();
        assert_eq!(numbers, (0..cells).collect::<Vec<usize>>());
    }
}
