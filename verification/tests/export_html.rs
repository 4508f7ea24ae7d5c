//! Conversion of export-view HTML.

use confluence2md::export_html::{convert_to_md, ConvertOptions, TableConversion};

fn td(html: &str) -> String {
    convert_to_md(html, ConvertOptions::default())
}

fn td_always(html: &str) -> String {
    convert_to_md(
        html,
        ConvertOptions {
            table_conversion: TableConversion::Always,
        },
    )
}

#[test]
fn renders_headings() {
    let md = td("<h1>Title</h1><h2>Sub</h2>");
    assert!(md.contains("# Title"));
    assert!(md.contains("## Sub"));
}

#[test]
fn rewrites_confluence_toc_links_to_markdown_heading_slugs() {
    let html = r##"<div class="toc-macro"><ul><li><a href="#SamplePage-背景">背景</a></li><li><a href="#SamplePage-4.2.サンプル章(テスト)/Samplesection(Test)">4.2.サンプル章(テスト)/Sample section (Test)</a></li></ul></div><h1 id="SamplePage-背景">背景</h1><h2 id="SamplePage-4.2.サンプル章(テスト)/Samplesection(Test)">4.2.サンプル章(テスト)/Sample section (Test)</h2>"##;
    let md = td(html);

    assert!(md.contains("[背景](#背景)"), "{md}");
    assert!(md.contains(
        "[4.2.サンプル章(テスト)/Sample section (Test)](#42サンプル章テストsample-section-test)"
    ), "{md}");
    assert!(!md.contains("<a id="), "{md}");
    assert!(!md.contains("#SamplePage-背景"), "{md}");
    assert!(md.contains("## 4.2.サンプル章"), "{md}");
}

#[test]
fn rewrites_duplicate_heading_links_with_markdown_suffixes() {
    let html = r##"<ul><li><a href="#page-Repeat">first</a></li><li><a href="#page-Repeat.1">second</a></li></ul><h2 id="page-Repeat">Repeat</h2><h2 id="page-Repeat.1">Repeat</h2>"##;
    let md = td(html);

    assert!(md.contains("[first](#repeat)"), "{md}");
    assert!(md.contains("[second](#repeat-1)"), "{md}");
}

#[test]
fn renders_paragraph_and_inline() {
    let md = td("<p>Hello <strong>bold</strong> and <em>italic</em>.</p>");
    assert!(md.contains("**bold**"));
    assert!(md.contains("_italic_") || md.contains("*italic*"));
}

#[test]
fn renders_link() {
    let md = td(r#"<p><a href="https://example.com">Example</a></p>"#);
    assert!(md.contains("[Example](https://example.com)"));
}

#[test]
fn renders_unordered_list() {
    let md = td("<ul><li>a</li><li>b</li></ul>");
    assert!(md.contains("- a"), "{md}");
    assert!(md.contains("- b"), "{md}");
}

#[test]
fn skips_style_and_script_elements() {
    let html = r##"<p><style type="text/css">/*<![CDATA[*/ div.rbtoc1 {padding: 0px;} /*]]>*/</style><div class="toc-macro"><ul><li><a href="#one">One</a></li></ul></div><script>alert("x")</script></p>"##;
    let md = td(html);

    assert!(!md.contains("CDATA"), "{md}");
    assert!(!md.contains("rbtoc1"), "{md}");
    assert!(!md.contains("alert"), "{md}");
    assert!(md.contains("[One](#one)"), "{md}");
}

#[test]
fn renders_code_block_with_language() {
    let md = td(r#"<pre><code class="language-rust">fn main() {}</code></pre>"#);
    assert!(md.contains("```rust"));
    assert!(md.contains("fn main()"));
}

#[test]
fn syntax_highlighter_pre_extracts_brush() {
    let md = td(
        r#"<pre class="syntaxhighlighter-pre" data-syntaxhighlighter-params="brush: rust; gutter: false">fn main() {}</pre>"#,
    );
    assert!(md.contains("```rust"), "{md}");
    assert!(md.contains("fn main()"));
}

#[test]
fn alert_info_to_important() {
    let md = td(
        r#"<div class="confluence-information-macro confluence-information-macro-information"><div class="confluence-information-macro-body"><p>Hi.</p></div></div>"#,
    );
    assert!(md.contains("> [!IMPORTANT]"), "{md}");
    assert!(md.contains("> Hi."), "{md}");
}

#[test]
fn alert_warning_to_caution() {
    let md = td(
        r#"<div class="confluence-information-macro confluence-information-macro-warning"><div class="confluence-information-macro-body"><p>Beware.</p></div></div>"#,
    );
    assert!(md.contains("> [!CAUTION]"), "{md}");
}

#[test]
fn alert_note_to_warning() {
    let md = td(
        r#"<div class="confluence-information-macro confluence-information-macro-note"><div class="confluence-information-macro-body"><p>Note.</p></div></div>"#,
    );
    assert!(md.contains("> [!WARNING]"), "{md}");
}

#[test]
fn details_block_preserved_as_html() {
    let md = td("<details><summary>Click</summary><p>Hidden.</p></details>");
    assert!(md.contains("<details>"));
    assert!(md.contains("<summary>Click</summary>"));
    assert!(md.contains("Hidden."));
}

#[test]
fn export_html_always_table_mode_unwraps_single_cell_table() {
    let md = td_always("<table><tbody><tr><td>Only cell</td></tr></tbody></table>");
    assert_eq!(md, "Only cell\n");
}

#[test]
fn default_mode_unwraps_single_cell_table_with_block_content() {
    let html = r#"<table><tbody><tr><td><p>Diagram</p><pre><code class="language-plantuml">@startuml
A -> B
@enduml</code></pre></td></tr></tbody></table>"#;
    let md = td(html);

    assert!(md.contains("Diagram"), "{md}");
    assert!(md.contains("```plantuml"), "{md}");
    assert!(md.contains("@startuml"), "{md}");
    assert!(!md.contains("| Diagram"), "{md}");
    assert!(!md.contains("<table"), "{md}");
}

#[test]
fn default_mode_preserves_merged_table_as_html() {
    let html = r#"<table><tbody><tr><th>A</th><th>B</th><th>C</th></tr><tr><td colspan="2">merged</td><td>c</td></tr></tbody></table>"#;
    let md = td(html);
    assert!(md.contains("<table"), "Expected raw HTML table, got:\n{md}");
    assert!(
        md.contains("colspan"),
        "Expected colspan preserved, got:\n{md}"
    );
}

#[test]
fn default_mode_converts_non_merged_table_normally() {
    let html = r#"<table><thead><tr><th>A</th><th>B</th></tr></thead><tbody><tr><td>1</td><td>2</td></tr></tbody></table>"#;
    let md = td(html);
    assert!(
        md.contains("| A | B |"),
        "Expected markdown table, got:\n{md}"
    );
    assert!(
        md.contains("| 1 | 2 |"),
        "Expected markdown table, got:\n{md}"
    );
}

#[test]
fn default_mode_promotes_confluence_td_header_table() {
    let html = r#"<table class="wrapped confluenceTable"><tbody><tr><td><p><strong>No.</strong></p></td><td><p><strong>用語/Term</strong></p></td><td><p><strong>説明/Explanation</strong></p></td></tr><tr><td><p>例/e.g.</p></td><td><p>sample-tool</p></td><td><p>サンプルデータを処理するツール。<br/>Tool for processing sample data.</p></td></tr><tr><td><p>1</p></td><td><p>サンプル管理機能</p></td><td><p>入力されたサンプル情報をもとに処理を実行する。</p></td></tr></tbody></table>"#;
    let md = td(html);

    let table_lines: Vec<&str> = md.lines().filter(|line| line.starts_with('|')).collect();
    assert_eq!(table_lines.len(), 4, "{md}");
    assert!(table_lines[0].contains("**No.**"), "{md}");
    assert!(table_lines[0].contains("**用語/Term**"), "{md}");
    assert!(table_lines[0].contains("**説明/Explanation**"), "{md}");
    assert!(table_lines[2].contains("例/e.g."), "{md}");
    assert!(table_lines[2].contains("sample-tool"), "{md}");
    assert!(table_lines[3].contains("サンプル管理機能"), "{md}");
    assert!(!md.contains("<table"), "{md}");
}

#[test]
fn always_mode_expands_colspan() {
    let html = r#"<table><tbody><tr><th>A</th><th>B</th><th>C</th></tr><tr><td colspan="2">merged</td><td>c</td></tr></tbody></table>"#;
    let md = td_always(html);
    assert!(md.contains("| A"), "Expected header, got:\n{md}");
    assert!(
        md.contains("| merged |"),
        "Expected merged in cell, got:\n{md}"
    );
}

#[test]
fn always_mode_expands_rowspan() {
    let html = r#"<table><tbody><tr><th>A</th><th>B</th></tr><tr><td rowspan="2">span</td><td>x</td></tr><tr><td>y</td></tr></tbody></table>"#;
    let md = td_always(html);
    assert!(md.contains("| span"), "Expected span in cell, got:\n{md}");
    assert!(md.contains("| y |"), "Expected y in cell, got:\n{md}");
}

#[test]
fn always_mode_expands_confluence_merged_table() {
    let html = r#"<table class="confluenceTable"><tbody><tr><th>列１</th><th>列２</th><th>列３</th><th>列４</th><th>列５</th></tr><tr><td colspan="2">１</td><td>２</td><td colspan="2">３</td></tr><tr><td>４</td><td colspan="3">５</td><td>６</td></tr><tr><td>７</td><td rowspan="2">８</td><td>９</td><td colspan="2" rowspan="2">１０</td></tr><tr><td>１１</td><td>１２</td></tr></tbody></table>"#;
    let md = td_always(html);
    assert!(md.contains("| 列１"), "Expected header, got:\n{md}");
    let lines: Vec<&str> = md.lines().filter(|l| l.starts_with('|')).collect();
    assert_eq!(
        lines.len(),
        6,
        "Expected 6 table lines (header+sep+4 data), got:\n{md}"
    );
}

#[test]
fn default_mode_preserves_merged_table_with_indented_html() {
    let html = r#"<table><tbody><tr><th>A</th><th>B</th></tr><tr><td colspan="2">merged</td></tr></tbody></table>"#;
    let md = td(html);
    // The table is rendered as indented HTML (leading whitespace may be trimmed by htmd).
    assert!(md.contains("<table>"), "Expected <table>, got:\n{md}");
    assert!(
        md.contains("\n  <tbody>"),
        "Expected <tbody> indented, got:\n{md}"
    );
    assert!(
        md.contains("\n    <tr>"),
        "Expected <tr> indented, got:\n{md}"
    );
    // Cell opening tag indented; content stays on the same line as the tag.
    assert!(
        md.contains("\n      <th>A</th>"),
        "Expected <th> cell on its own line, got:\n{md}"
    );
    assert!(
        md.contains("\n      <td colspan=\"2\">merged</td>"),
        "Expected <td> cell on its own line, got:\n{md}"
    );
}

#[test]
fn default_mode_preserves_nested_table_as_html() {
    let html = r#"<table><tbody><tr><th>A</th><th>B</th></tr><tr><td>outer</td><td><table><tbody><tr><th>X</th></tr><tr><td>1</td></tr></tbody></table></td></tr></tbody></table>"#;
    let md = td(html);
    assert!(md.contains("<table"), "Expected raw HTML table, got:\n{md}");
    assert_eq!(
        md.matches("<table").count(),
        2,
        "Expected nested table HTML preserved, got:\n{md}"
    );
    assert!(
        md.contains("\n      <td>outer</td>"),
        "Expected pretty-printed outer cell, got:\n{md}"
    );
}

#[test]
fn always_mode_extracts_nested_tables_with_unique_markers() {
    let html = r#"<table><tbody><tr><th>A</th><th>B</th></tr><tr><td><table><tbody><tr><th>X</th></tr><tr><td>1</td></tr></tbody></table></td><td><table><tbody><tr><th>Y</th></tr><tr><td>2</td></tr></tbody></table></td></tr></tbody></table>"#;
    let md = td_always(html);

    assert!(
        md.contains("| A"),
        "Expected outer markdown table, got:\n{md}"
    );
    assert!(
        md.contains("(\\*1)"),
        "Expected first marker in outer table, got:\n{md}"
    );
    assert!(
        md.contains("(\\*2)"),
        "Expected second marker in outer table, got:\n{md}"
    );

    assert!(
        md.contains("\n(*1)\n"),
        "Expected marker section for first nested table, got:\n{md}"
    );
    assert!(
        md.contains("\n(*2)\n"),
        "Expected marker section for second nested table, got:\n{md}"
    );
    assert!(
        md.contains("| X |"),
        "Expected first nested markdown table, got:\n{md}"
    );
    assert!(
        md.contains("| Y |"),
        "Expected second nested markdown table, got:\n{md}"
    );
}

/// [Text effects](https://confluence.atlassian.com/doc/confluence-storage-format-790796544.html#ConfluenceStorageFormat-Texteffects)
#[test]
fn it_should_render_strikethrough() {
    let actual = td("<span style=\"text-decoration: line-through;\">strikethrough</span>");
    let expected = "~~strikethrough~~\n";
    assert_eq!(actual, expected);

    let actual = td("<span style=\"text-decoration:line-through\">strikethrough</span>");
    let expected = "~~strikethrough~~\n";
    assert_eq!(actual, expected);

    let actual = td("<span style=\"text-decoration:\t   line-through\">strikethrough</span>");
    let expected = "~~strikethrough~~\n";
    assert_eq!(actual, expected);

    let actual =
        td("<span style=\"color: red;  text-decoration: line-through;\">strikethrough</span>");
    let expected = "~~strikethrough~~\n";
    assert_eq!(actual, expected);

    let actual =
        td("<span style=\"color: red;  TEXT-decoration: line-THROUGH;\">strikethrough</span>");
    let expected = "~~strikethrough~~\n";
    assert_eq!(actual, expected);
}
