//! Elements as trees, and their Markdown.

use confluence2md::dom::{
    alert_type_from_class, direct_row_cells, direct_table_rows, element_markdown,
    find_descendant_by_class, frame_content, node_has_merged_cells, node_has_nested_table,
    parse_brush, parse_css_rule, parse_css_style, raw_text_of, render_alert, rendering,
    serialize_node_to_html, table_single_cell, Frame, HtmlAttr, HtmlNode, NodeContent, Rendering,
};

fn element(tag: &str, attrs: &[(&str, &str)], children: Vec<HtmlNode<u32>>) -> HtmlNode<u32> {
    HtmlNode {
        content: NodeContent::Element {
            tag: tag.to_owned(),
            attrs: attrs
                .iter()
                .map(|(n, v)| HtmlAttr { name: n.to_string(), value: v.to_string() })
                .collect(),
        },
        children,
        handle: 0,
    }
}

fn text(t: &str) -> HtmlNode<u32> {
    HtmlNode { content: NodeContent::Text(t.to_owned()), children: Vec::new(), handle: 0 }
}

fn walk(n: &HtmlNode<u32>) -> String {
    format!(" [{}] ", raw_text_of(n))
}

#[test]
fn attributes_and_classes() {
    let n = element("p", &[("class", "a  b"), ("class", "c")], vec![]);
    assert_eq!(n.class_of(), "a  b");
    assert_eq!(n.attr_of("id"), None);
    assert!(n.element_name_is("p"));
    assert!(!text("p").element_name_is("p"));
    let tree = element("div", &[], vec![element("p", &[], vec![n]), text("x")]);
    assert!(find_descendant_by_class(&tree, "b").is_some());
    assert!(find_descendant_by_class(&tree, "c").is_some());
    assert!(find_descendant_by_class(&tree, "a b").is_none());
}

#[test]
fn merged_and_nested_tables() {
    let plain = element("table", &[], vec![element("td", &[("colspan", " 1 ")], vec![])]);
    assert!(!node_has_merged_cells(&plain));
    assert!(!node_has_nested_table(&plain));
    let merged = element("table", &[], vec![element("td", &[("rowspan", "2")], vec![])]);
    assert!(node_has_merged_cells(&merged));
    for (value, expected) in [
        ("1", false), ("01", false), ("0", false), ("", false), ("x", false), ("2", true),
        (" 02 ", true), ("99999999999999999999999", true), ("-2", false),
    ] {
        let n = element("td", &[("colspan", value)], vec![]);
        assert_eq!(node_has_merged_cells(&n), expected, "{value}");
    }
    let nested = element("table", &[], vec![element("td", &[], vec![plain])]);
    assert!(node_has_nested_table(&nested));
}

#[test]
fn rows_and_cells() {
    let row = |t: &str| element("tr", &[], vec![element("td", &[], vec![text(t)]), text(" ")]);
    let table = element("table", &[], vec![row("a"), element("tbody", &[], vec![row("b"), text("-")])]);
    let rows = direct_table_rows(&table);
    assert_eq!(rows.len(), 2);
    assert_eq!(raw_text_of(rows[1]), "b ");
    assert_eq!(direct_row_cells(rows[0]).len(), 1);
    assert!(table_single_cell(&table).is_none());
    let single = element("table", &[], vec![row("only")]);
    assert_eq!(raw_text_of(table_single_cell(&single).unwrap()), "only");
}

#[test]
fn trees_are_written_as_indented_html() {
    let table = element(
        "table",
        &[("title", "a\"<&>")],
        vec![element("tr", &[], vec![element("td", &[], vec![
            element("b", &[], vec![text("x<y>&")]),
        ])])],
    );
    assert_eq!(
        serialize_node_to_html(&table),
        "<table title=\"a&quot;&lt;&amp;>\">\n  <tr>\n    <td><b>x&lt;y&gt;&amp;</b></td>\n  </tr>\n</table>"
    );
    let other = HtmlNode { content: NodeContent::Other, children: vec![text("a")], handle: 0u32 };
    assert_eq!(serialize_node_to_html(&other), "a");
}

#[test]
fn styles() {
    assert_eq!(parse_css_rule(" a : b:c "), Some(("a".to_owned(), "b:c".to_owned())));
    assert_eq!(parse_css_rule("a"), None);
    let style = parse_css_style("Color: Red; color: BLUE;; x");
    assert_eq!(style.get("color").unwrap(), "blue");
    assert!(style.get("x").is_none());
}

#[test]
fn brushes() {
    assert_eq!(parse_brush("gutter: false; BRUSH: c++"), Some("c++".to_owned()));
    assert_eq!(parse_brush("gutter; brush: rust"), None);
    assert_eq!(parse_brush(""), None);
}

#[test]
fn alerts() {
    let base = "confluence-information-macro";
    for (kind, alert) in [
        ("information", "IMPORTANT"),
        ("note", "WARNING"),
        ("tip", "TIP"),
        ("warning", "CAUTION"),
        ("panel", "NOTE"),
    ] {
        assert_eq!(alert_type_from_class(&format!("{base} {base}-{kind}")), Some(alert));
    }
    assert_eq!(alert_type_from_class(base), None);
    assert_eq!(render_alert("TIP", "a\n\nb"), "\n\n> [!TIP]\n> a\n>\n> b\n\n");
}

#[test]
fn frames() {
    let c = || " x ".to_owned();
    assert_eq!(frame_content(&Frame::Plain, c()), " x ");
    assert_eq!(frame_content(&Frame::Struck, c()), "~~ x ~~");
    assert_eq!(frame_content(&Frame::Details, c()), "\n\n<details>\nx\n</details>\n\n");
    assert_eq!(frame_content(&Frame::Summary, c()), "<summary>x</summary>\n\n");
    assert_eq!(frame_content(&Frame::Cell, c()), "\n\nx\n\n");
    assert_eq!(
        frame_content(&Frame::Expand(" t ".to_owned()), c()),
        "\n\n<details>\n<summary>t</summary>\n\nx\n</details>\n\n"
    );
    assert_eq!(frame_content(&Frame::Alert("NOTE".to_owned()), c()), "\n\n> [!NOTE]\n> x\n\n");
}

#[test]
fn expand_containers() {
    let n = element(
        "div",
        &[("class", "expand-container")],
        vec![
            element("div", &[("class", "expand-control")], vec![element(
                "span",
                &[("class", "expand-control-text")],
                vec![text(" Title ")],
            )]),
            element("div", &[("class", "expand-content")], vec![text("body")]),
        ],
    );
    assert_eq!(
        element_markdown(&n, true, walk).unwrap(),
        "\n\n<details>\n<summary>Title</summary>\n\n[body]\n</details>\n\n"
    );
    assert_eq!(element_markdown(&n.children[0], true, walk).unwrap(), "");
}

#[test]
fn elements_in_markdown() {
    let style = element("style", &[], vec![text("x")]);
    assert_eq!(element_markdown(&style, true, walk).unwrap(), "");
    let div = element("div", &[], vec![text("x")]);
    assert_eq!(element_markdown(&div, true, walk).unwrap(), " [x] ");
    let alert = element("div", &[("class", "confluence-information-macro")], vec![text("x")]);
    assert_eq!(element_markdown(&alert, true, walk).unwrap(), "\n\n> [!NOTE]\n> [x]\n\n");
    let pre = element("pre", &[], vec![text("x")]);
    assert!(element_markdown(&pre, true, walk).is_none());
    let code = element(
        "pre",
        &[
            ("class", "syntaxhighlighter-pre"),
            ("data-syntaxhighlighter-params", "brush: rust"),
        ],
        vec![text("x\n\n")],
    );
    assert_eq!(element_markdown(&code, true, walk).unwrap(), "\n\n```rust\nx\n```\n\n");
    let other = element("p", &[], vec![]);
    assert!(matches!(rendering(&other, true), Rendering::Fallback));
    let merged = element("table", &[], vec![
        element("tr", &[], vec![
            element("td", &[("colspan", "2")], vec![text("a")]),
            element("td", &[], vec![]),
        ]),
    ]);
    assert!(element_markdown(&merged, false, walk).is_none());
    assert!(element_markdown(&merged, true, walk).unwrap().starts_with("\n\n<table>\n  <tr>"));
}
