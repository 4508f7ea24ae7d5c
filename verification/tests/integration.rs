//! Macros and conversion together.

use confluence2md::export_html::{convert_to_md, ConvertOptions, TableConversion};
use confluence2md::utils::{apply_task_list_statuses, preprocess_confluence_macros};

#[test]
fn code_macro_roundtrip_via_preprocess_and_convert_to_md() {
    let html = r#"<ac:structured-macro ac:name="code"><ac:parameter ac:name="language">rust</ac:parameter><ac:plain-text-body><![CDATA[fn main() {
    let x = 1;
}]]></ac:plain-text-body></ac:structured-macro>"#;
    let processed = preprocess_confluence_macros(html);
    let md = convert_to_md(&processed, ConvertOptions::default());
    assert!(md.contains("```rust"));
    assert!(md.contains("fn main()"));
    assert!(md.contains("let x = 1;"));
}

#[test]
fn info_macro_renders_as_important_callout() {
    let html = r#"<ac:structured-macro ac:name="info"><ac:rich-text-body><p>Important info.</p></ac:rich-text-body></ac:structured-macro>"#;
    let processed = preprocess_confluence_macros(html);
    let md = convert_to_md(&processed, ConvertOptions::default());
    assert!(md.contains("> [!IMPORTANT]"));
    assert!(md.contains("> Important info."));
}

#[test]
fn warning_macro_renders_as_warning_callout() {
    let html = r#"<ac:structured-macro ac:name="warning"><ac:rich-text-body><p>Beware.</p></ac:rich-text-body></ac:structured-macro>"#;
    let processed = preprocess_confluence_macros(html);
    let md = convert_to_md(&processed, ConvertOptions::default());
    assert!(md.contains("> [!CAUTION]"));
}

#[test]
fn expand_macro_renders_as_details_summary() {
    let html = r#"<ac:structured-macro ac:name="expand"><ac:parameter ac:name="title">Click</ac:parameter><ac:rich-text-body><p>Hidden.</p></ac:rich-text-body></ac:structured-macro>"#;
    let processed = preprocess_confluence_macros(html);
    let md = convert_to_md(&processed, ConvertOptions::default());
    assert!(md.contains("<details>"));
    assert!(md.contains("<summary>Click</summary>"));
    assert!(md.contains("Hidden."));
}

#[test]
fn inline_tasks_render_as_markdown_checkboxes() {
    let storage = r#"<ac:task-list>
<ac:task><ac:task-id>1</ac:task-id><ac:task-status>complete</ac:task-status><ac:task-body>done</ac:task-body></ac:task>
<ac:task><ac:task-id>2</ac:task-id><ac:task-status>incomplete</ac:task-status><ac:task-body>todo</ac:task-body></ac:task>
</ac:task-list>"#;
    let rendered = r#"<ul class="inline-task-list"><li data-inline-task-id="1">done</li><li data-inline-task-id="2">todo</li></ul>"#;

    let annotated = apply_task_list_statuses(rendered, storage);
    let processed = preprocess_confluence_macros(&annotated);
    let md = convert_to_md(&processed, ConvertOptions::default());

    assert!(md.contains("- [x] done"), "{md}");
    assert!(md.contains("- [ ] todo"), "{md}");
}

#[test]
fn integration_always_table_mode_unwraps_single_cell_table() {
    let html = "<table><tbody><tr><td>Only cell</td></tr></tbody></table>";
    let md = convert_to_md(
        html,
        ConvertOptions {
            table_conversion: TableConversion::Always,
        },
    );
    assert_eq!(md, "Only cell\n");
}
