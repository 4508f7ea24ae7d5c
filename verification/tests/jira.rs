//! Jira issues in a page.

use confluence2md::jira::replace_jira_macros;

#[test]
fn storage_jira_macro_uses_browse_url_from_rendered_issue_link() {
    let html = r#"<p><span class="jira-issue" data-jira-key="DEMO-1234"><a href="https://jira.example.com/browse/DEMO-1234" class="jira-issue-key">DEMO-1234</a></span></p><p><ac:structured-macro ac:name="jira" ac:schema-version="1" ac:macro-id="m1"><ac:parameter ac:name="server">Jira</ac:parameter><ac:parameter ac:name="key">DEMO-1235</ac:parameter></ac:structured-macro></p>"#;
    let processed = replace_jira_macros(html);
    assert!(processed.contains(
        r#"<p><a href="https://jira.example.com/browse/DEMO-1234">DEMO-1234</a></p>"#
    ));
    assert!(processed.contains(
        r#"<p><a href="https://jira.example.com/browse/DEMO-1235">DEMO-1235</a></p>"#
    ));
}

#[test]
fn storage_jira_macro_without_response_link_yields_key_text() {
    let html = r#"<p><ac:structured-macro ac:name="jira" ac:schema-version="1" ac:macro-id="m1"><ac:parameter ac:name="server">Jira</ac:parameter><ac:parameter ac:name="key">DEMO-1234</ac:parameter></ac:structured-macro></p>"#;
    let processed = replace_jira_macros(html);
    assert_eq!(processed, r#"<p>DEMO-1234</p>"#);
}

#[test]
fn rendered_jira_issue_yields_issue_link_only() {
    let html = r#"<p><span class="jira-issue" data-jira-key="DEMO-1234"><a href="https://jira.example.com/browse/DEMO-1234" class="jira-issue-key"><span class="aui-icon aui-icon-wait issue-placeholder"></span>DEMO-1234</a> - <span class="summary">Getting issue details...</span><span class="aui-lozenge aui-lozenge-subtle aui-lozenge-default issue-placeholder">STATUS</span></span></p>"#;
    let processed = replace_jira_macros(html);
    assert_eq!(
        processed,
        r#"<p><a href="https://jira.example.com/browse/DEMO-1234">DEMO-1234</a></p>"#
    );
}
