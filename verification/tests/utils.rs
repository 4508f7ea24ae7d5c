//! File names, entities, URLs and macros.

use confluence2md::utils::{
    apply_task_list_statuses, decode_html_attribute, decode_html_text, ext_from_content_type,
    normalize_base_url, preprocess_confluence_macros, resolve_url, sanitize_file_name, strip_tags,
};

#[test]
fn sanitize_file_name_removes_forbidden_chars() {
    assert_eq!(sanitize_file_name(r#"foo/bar\baz:*?"<>|"#), "foo_bar_baz");
}

#[test]
fn sanitize_file_name_collapses_whitespace_and_underscores() {
    assert_eq!(sanitize_file_name("hello   world"), "hello_world");
    assert_eq!(sanitize_file_name("a___b"), "a_b");
}

#[test]
fn sanitize_file_name_strips_outer_underscores() {
    assert_eq!(sanitize_file_name("_foo_"), "foo");
}

#[test]
fn sanitize_file_name_truncates_to_180_chars() {
    let long = "a".repeat(200);
    assert_eq!(sanitize_file_name(&long).chars().count(), 180);
}

#[test]
fn sanitize_file_name_fallback_for_empty_or_symbols_only() {
    assert_eq!(sanitize_file_name(""), "file");
    assert_eq!(sanitize_file_name("???"), "file");
}

#[test]
fn decode_html_attribute_basic_entities() {
    assert_eq!(decode_html_attribute("a &amp; b"), "a & b");
    assert_eq!(decode_html_attribute("&quot;hello&quot;"), "\"hello\"");
    assert_eq!(decode_html_attribute("a &lt; b &gt; c"), "a < b > c");
    assert_eq!(decode_html_attribute("it&#39;s"), "it's");
}

#[test]
fn decode_html_text_numeric_refs() {
    assert_eq!(decode_html_text("&#x41;"), "A");
    assert_eq!(decode_html_text("&#65;"), "A");
    assert_eq!(decode_html_text("&amp;&#x26;"), "&&");
}

#[test]
fn strip_tags_removes_tags_and_decodes() {
    assert_eq!(strip_tags("<p>Hello &amp; World</p>"), "Hello & World");
    assert_eq!(strip_tags("<b><i>text</i></b>"), "text");
    assert_eq!(strip_tags("no tags"), "no tags");
}

#[test]
fn normalize_base_url_strips_trailing_slashes() {
    assert_eq!(
        normalize_base_url("http://example.com/confluence///"),
        "http://example.com/confluence"
    );
    assert_eq!(
        normalize_base_url("http://example.com"),
        "http://example.com"
    );
}

#[test]
fn ext_from_content_type_maps_known_types() {
    assert_eq!(ext_from_content_type("image/png"), ".png");
    assert_eq!(ext_from_content_type("image/jpeg"), ".jpg");
    assert_eq!(ext_from_content_type("image/gif"), ".gif");
    assert_eq!(ext_from_content_type("image/webp"), ".webp");
    assert_eq!(ext_from_content_type("image/svg+xml"), ".svg");
    assert_eq!(ext_from_content_type("application/pdf"), "");
    assert_eq!(ext_from_content_type(""), "");
    assert_eq!(ext_from_content_type("image/png; charset=utf-8"), ".png");
}

const BASE: &str = "http://localhost:8080/confluence";

#[test]
fn resolve_url_absolute_unchanged() {
    assert_eq!(
        resolve_url("https://example.com/image.png", BASE),
        "https://example.com/image.png"
    );
}

#[test]
fn resolve_url_root_relative_prepends_context_path() {
    assert_eq!(
        resolve_url("/download/attachments/123/foo.png", BASE),
        "http://localhost:8080/confluence/download/attachments/123/foo.png"
    );
}

#[test]
fn resolve_url_relative_joins_against_base() {
    let result = resolve_url("images/foo.png", BASE);
    assert!(
        result.starts_with("http://localhost:8080/confluence/"),
        "got {result}"
    );
}

#[test]
fn resolve_url_decodes_html_encoded_src() {
    let result = resolve_url("/path?a=1&amp;b=2", BASE);
    assert!(result.contains("a=1&b=2"), "got {result}");
}

#[test]
fn preprocess_code_macro_with_language() {
    let html = r#"<ac:structured-macro ac:name="code" ac:schema-version="1" ac:macro-id="abc">
  <ac:parameter ac:name="language">python</ac:parameter><ac:plain-text-body>
    <![CDATA[print("hello")]]>
  </ac:plain-text-body>
</ac:structured-macro>"#;
    let result = preprocess_confluence_macros(html);
    assert!(result.contains(r#"<pre><code class="language-python">"#));
    assert!(result.contains("print(&quot;hello&quot;)"));
    assert!(result.contains("</code></pre>"));
}

#[test]
fn preprocess_code_macro_without_language() {
    let html = r#"<ac:structured-macro ac:name="code"><ac:plain-text-body><![CDATA[echo hi]]></ac:plain-text-body></ac:structured-macro>"#;
    let result = preprocess_confluence_macros(html);
    assert!(result.contains("<pre><code>echo hi</code></pre>"));
}

#[test]
fn preprocess_code_macro_escapes_html_specials() {
    let html = r#"<ac:structured-macro ac:name="code"><ac:plain-text-body><![CDATA[a < b && b > 0]]></ac:plain-text-body></ac:structured-macro>"#;
    let result = preprocess_confluence_macros(html);
    assert!(
        result.contains("a &lt; b &amp;&amp; b &gt; 0"),
        "got {result}"
    );
}

#[test]
fn preprocess_info_macro_to_information_div() {
    let html = r#"<ac:structured-macro ac:name="info" ac:schema-version="1" ac:macro-id="abc">
  <ac:parameter ac:name="title">Title</ac:parameter>
  <ac:rich-text-body><p>Info content.</p></ac:rich-text-body>
</ac:structured-macro>"#;
    let processed = preprocess_confluence_macros(html);
    assert!(processed.contains("confluence-information-macro-information"));
    assert!(processed.contains("Info content."));
    assert!(!processed.contains("ac:structured-macro"));
}

#[test]
fn preprocess_note_macro_to_note_div() {
    let html = r#"<ac:structured-macro ac:name="note"><ac:rich-text-body><p>Note body.</p></ac:rich-text-body></ac:structured-macro>"#;
    let processed = preprocess_confluence_macros(html);
    assert!(processed.contains("confluence-information-macro-note"));
}

#[test]
fn preprocess_tip_macro_to_tip_div() {
    let html = r#"<ac:structured-macro ac:name="tip"><ac:rich-text-body><p>Tip body.</p></ac:rich-text-body></ac:structured-macro>"#;
    let processed = preprocess_confluence_macros(html);
    assert!(processed.contains("confluence-information-macro-tip"));
}

#[test]
fn preprocess_warning_macro_to_warning_div() {
    let html = r#"<ac:structured-macro ac:name="warning"><ac:rich-text-body><p>Warning body.</p></ac:rich-text-body></ac:structured-macro>"#;
    let processed = preprocess_confluence_macros(html);
    assert!(processed.contains("confluence-information-macro-warning"));
}

#[test]
fn preprocess_panel_macro_to_panel_div() {
    let html = r#"<ac:structured-macro ac:name="panel"><ac:rich-text-body><p>Panel body.</p></ac:rich-text-body></ac:structured-macro>"#;
    let processed = preprocess_confluence_macros(html);
    assert!(processed.contains("confluence-information-macro-panel"));
}

#[test]
fn preprocess_does_not_touch_non_alert_macros() {
    let html = r#"<ac:structured-macro ac:name="drawio"><ac:parameter ac:name="diagramName">test</ac:parameter></ac:structured-macro>"#;
    assert_eq!(preprocess_confluence_macros(html), html);
}

#[test]
fn preprocess_lref_gdrive_inside_anchor_yields_text() {
    let url = "https://docs.google.com/spreadsheets/d/abc/edit?gid=0#gid=0";
    let html = format!(
        r#"<a href="{url}"><ac:structured-macro ac:name="lref-gdrive-file" ac:schema-version="1" ac:macro-id="m1"><ac:parameter ac:name="url">{url}</ac:parameter></ac:structured-macro></a>"#
    );
    let processed = preprocess_confluence_macros(&html);
    assert_eq!(
        processed,
        format!(r#"<a href="{url}">Google Drive Link</a>"#)
    );
}

#[test]
fn preprocess_lref_gdrive_standalone_yields_anchor() {
    let url = "https://docs.google.com/spreadsheets/d/xyz/edit";
    let html = format!(
        r#"<p><ac:structured-macro ac:name="lref-gdrive-file" ac:schema-version="1" ac:macro-id="m2"><ac:parameter ac:name="url">{url}</ac:parameter></ac:structured-macro></p>"#
    );
    let processed = preprocess_confluence_macros(&html);
    assert!(processed.contains(&format!(r#"<a href="{url}">Google Drive Link</a>"#)));
    assert!(!processed.contains("ac:structured-macro"));
}

#[test]
fn preprocess_lref_gdrive_no_url_param_removed() {
    let html = r#"<p><ac:structured-macro ac:name="lref-gdrive-file" ac:schema-version="1" ac:macro-id="m3"></ac:structured-macro></p>"#;
    let processed = preprocess_confluence_macros(html);
    assert!(!processed.contains("ac:structured-macro"));
}

#[test]
fn apply_task_list_statuses_copies_storage_status_to_rendered_tasks() {
    let storage = r#"<ac:task-list>
<ac:task><ac:task-id>1</ac:task-id><ac:task-status>complete</ac:task-status><ac:task-body>done</ac:task-body></ac:task>
<ac:task><ac:task-id>2</ac:task-id><ac:task-status>incomplete</ac:task-status><ac:task-body>todo</ac:task-body></ac:task>
</ac:task-list>"#;
    let rendered = r#"<ul class="inline-task-list"><li data-inline-task-id="1">done</li><li data-inline-task-id="2">todo</li></ul>"#;

    let annotated = apply_task_list_statuses(rendered, storage);

    assert!(annotated.contains(r#"data-task-status="complete""#));
    assert!(annotated.contains(r#"data-task-status="incomplete""#));
}

#[test]
fn preprocess_task_list_items_to_markdown_checkbox_text() {
    let html = r#"<ul class="inline-task-list"><li data-inline-task-id="1" data-task-status="complete">done</li><li data-inline-task-id="2" data-task-status="incomplete">todo</li><li data-inline-task-id="3">&nbsp;</li></ul>"#;

    let processed = preprocess_confluence_macros(html);

    assert!(processed.contains(">[x] done</li>"), "{processed}");
    assert!(processed.contains(">[ ] todo</li>"), "{processed}");
    assert!(processed.contains(">[ ]</li>"), "{processed}");
}

#[test]
fn preprocess_rendered_lref_gdrive_inside_anchor() {
    let url = "https://docs.google.com/spreadsheets/d/abc/edit?gid=0#gid=0";
    let ctx = format!(r#"{{&quot;url&quot;:&quot;{url}&quot;}}"#);
    let html = format!(
        r#"<p>状態遷移検討資料：<a class="external-link" href="{url}" rel="nofollow"><span class="ap-container ap-inline"><span class="uninitialized_lref_module ap-content ap-inline" data-context="{ctx}" data-addon-key="com.bilith.lref.confluence-gdrive" data-module-key="lref-gdrive-file"></span></span></a></p>"#
    );
    let processed = preprocess_confluence_macros(&html);
    assert!(processed.contains(&format!(
        r#"<a class="external-link" href="{url}" rel="nofollow">Google Drive Link</a>"#
    )));
    assert!(!processed.contains("data-module-key"));
    assert!(!processed.contains("ap-container"));
}

#[test]
fn preprocess_rendered_lref_gdrive_standalone() {
    let url = "https://docs.google.com/spreadsheets/d/xyz/edit";
    let ctx = format!(r#"{{&quot;url&quot;:&quot;{url}&quot;}}"#);
    let html = format!(
        r#"<p><span class="ap-container ap-inline"><span class="uninitialized_lref_module ap-content ap-inline" data-context="{ctx}" data-addon-key="com.bilith.lref.confluence-gdrive" data-module-key="lref-gdrive-file"></span></span></p>"#
    );
    let processed = preprocess_confluence_macros(&html);
    assert!(processed.contains(&format!(r#"<a href="{url}">Google Drive Link</a>"#)));
    assert!(!processed.contains("data-module-key"));
}

#[test]
fn preprocess_expand_macro_to_details_summary() {
    let html = r#"<ac:structured-macro ac:name="expand" ac:schema-version="1" ac:macro-id="abc">
  <ac:parameter ac:name="title">Click to expand</ac:parameter>
  <ac:rich-text-body><p>Hidden body content.</p></ac:rich-text-body>
</ac:structured-macro>"#;
    let processed = preprocess_confluence_macros(html);
    assert!(processed.contains("<details>"));
    assert!(processed.contains("<summary>Click to expand</summary>"));
    assert!(processed.contains("Hidden body content."));
    assert!(processed.contains("</details>"));
    assert!(!processed.contains("ac:structured-macro"));
}

#[test]
fn preprocess_expand_macro_with_nested_structured_macro() {
    let html = r#"<ac:structured-macro ac:name="expand" ac:schema-version="1" ac:macro-id="outer">
  <ac:parameter ac:name="title">変更履歴/Change history</ac:parameter>
  <ac:rich-text-body>
    <p>Before nested</p>
    <ac:structured-macro ac:name="jira" ac:schema-version="1" ac:macro-id="inner">
      <ac:parameter ac:name="key">DEMO-1234</ac:parameter>
    </ac:structured-macro>
    <p>After nested</p>
  </ac:rich-text-body>
</ac:structured-macro>"#;
    let processed = preprocess_confluence_macros(html);
    assert_eq!(processed.matches("<details>").count(), 1);
    assert!(processed.contains("<summary>変更履歴/Change history</summary>"));
    assert!(processed.contains("Before nested"));
    assert!(processed.contains("After nested"));
    assert!(!processed.contains(r#"ac:name="expand""#));
    assert!(processed.contains("DEMO-1234"));
}

#[test]
fn preprocess_expand_macro_without_title() {
    let html = r#"<ac:structured-macro ac:name="expand"><ac:rich-text-body><p>Body only.</p></ac:rich-text-body></ac:structured-macro>"#;
    let processed = preprocess_confluence_macros(html);
    assert!(processed.contains("<summary></summary>"));
    assert!(processed.contains("Body only."));
}
