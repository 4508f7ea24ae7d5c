//! The Markdown document of a page.

use vstd::prelude::*;
use vstd::string::StringExecFns;

use crate::confluence::ConfluenceError;
use crate::export_html::TableConversion;
use crate::macros::{
    apply_task_list_statuses, preprocess_confluence_macros, preprocessed, with_task_statuses,
};
use crate::pattern::{fits, group_text, rewrite, rewritten, whole_text, Found, Span};
use crate::text::{
    chars_of, has_prefix, joined, only, same_text, starts_with, str_view, trimmed_end,
};
use crate::utils::{
    attribute_decoded, decode_html_attribute, escape_html, escaped, normalize_base_url,
    sanitize_file_name, sanitized,
};
use crate::web::{parse_url, resolve_url, resolved, url_read};

verus! {

/// The value of a setting: that of its command-line option, else that of its
/// environment variable.
pub fn setting<T>(option: Option<T>, variable: Option<T>) -> (r: Option<T>)
    ensures
        r == match option {
            Some(v) => Some(v),
            None => variable,
        },
{
    match option {
        Some(v) => Some(v),
        None => variable,
    }
}

/// A text that names no table conversion mode.
#[derive(Debug)]
pub struct TableModeError {
    pub value: String,
}

impl TableModeError {
    /// The error in words.
    pub fn message(&self) -> (r: String)
        ensures
            r@ == "Invalid --table-conversion value: \""@ + self.value@
                + "\". Must be \"default\" or \"always\"."@,
    {
        let mut out: String = "Invalid --table-conversion value: \"".to_owned();
        out.append(&self.value);
        out.append("\". Must be \"default\" or \"always\".");
        out
    }
}

/// The table conversion mode that a text names; the default mode where there
/// is no text.
pub fn parse_table_conversion(value: Option<&str>) -> (r: Result<TableConversion, TableModeError>)
    ensures
        match value {
            None => r == Ok::<TableConversion, TableModeError>(TableConversion::Default),
            Some(v) => if v@ == "default"@ {
                r == Ok::<TableConversion, TableModeError>(TableConversion::Default)
            } else if v@ == "always"@ {
                r == Ok::<TableConversion, TableModeError>(TableConversion::Always)
            } else {
                r matches Err(e) && e.value@ == v@
            },
        },
{
    match value {
        None => Ok(TableConversion::Default),
        Some(v) => {
            if same_text(v, "default") {
                Ok(TableConversion::Default)
            } else if same_text(v, "always") {
                Ok(TableConversion::Always)
            } else {
                Err(TableModeError { value: v.to_owned() })
            }
        },
    }
}

/// The base URL of the server of a page: its scheme, host and port.
pub fn base_url_of(page_url: &str) -> (r: Result<String, ConfluenceError>)
    ensures
        match url_read(page_url@) {
            Some(u) => r matches Ok(base) && base@ == trimmed_end(u.origin(), only('/')),
            None => r matches Err(ConfluenceError::BadUrl),
        },
{
    match parse_url(page_url) {
        Some(u) => Ok(normalize_base_url(&u.origin())),
        None => Err(ConfluenceError::BadUrl),
    }
}

/// The title of a document: that of its page, and one made of its identifier
/// where the page has none.
pub open spec fn document_title(title: Seq<char>, page_id: Seq<char>) -> Seq<char> {
    if title.len() == 0 {
        "page-"@ + page_id
    } else {
        title
    }
}

/// The title of a document.
pub fn title_of(title: &str, page_id: &str) -> (r: String)
    ensures
        r@ == document_title(title@, page_id@),
{
    if chars_of(title).len() == 0 {
        joined("page-", page_id)
    } else {
        title.to_owned()
    }
}

/// The name of the file that a document is written to.
pub fn output_file_name(title: &str) -> (r: String)
    ensures
        r@ == sanitized(title@) + ".md"@,
{
    joined(&sanitize_file_name(title), ".md")
}

/// The pattern of a link up to its address: what stands before, the opening
/// mark, the address, the closing mark.
pub const LINK: &'static str = r#"(?is)(<a\b[^>]*?\shref\s*=\s*)(["'])(.*?)(["'])"#;

/// Whether an address is relative to the page's server: it is no URL by
/// itself, names something, and leads neither into the page nor to another
/// host.
pub open spec fn is_relative(href: Seq<char>) -> bool {
    &&& href.len() > 0
    &&& !has_prefix(href, "#"@)
    &&& !has_prefix(href, "//"@)
    &&& url_read(attribute_decoded(href)) is None
}

/// A link up to its address. A relative address is resolved against the base
/// URL; any other stays as it is written.
pub open spec fn resolved_link(
    original: Seq<char>,
    before: Seq<char>,
    open: Seq<char>,
    href: Seq<char>,
    close: Seq<char>,
    base_url: Seq<char>,
) -> Seq<char> {
    if open == close && is_relative(href) {
        before + "\""@ + escaped(resolved(href, base_url)) + "\""@
    } else {
        original
    }
}

/// A link up to its address, with a relative address resolved.
pub fn resolve_link(
    original: String,
    before: &str,
    open: &str,
    href: &str,
    close: &str,
    base_url: &str,
) -> (r: String)
    ensures
        r@ == resolved_link(original@, before@, open@, href@, close@, base_url@),
{
    if !same_text(open, close) || chars_of(href).len() == 0 || starts_with(href, "#")
        || starts_with(href, "//") || parse_url(&decode_html_attribute(href)).is_some() {
        return original;
    }
    let mut out: String = before.to_owned();
    out.append("\"");
    out.append(&escape_html(&resolve_url(href, base_url)));
    out.append("\"");
    out
}

/// What replaces a link up to its address.
pub open spec fn link_rewriting(base_url: Seq<char>) -> spec_fn(Seq<char>, Seq<Option<Span>>) -> Seq<
    char,
> {
    |t: Seq<char>, m: Seq<Option<Span>>|
        resolved_link(
            whole_text(t, m),
            group_text(t, m, 1),
            group_text(t, m, 2),
            group_text(t, m, 3),
            group_text(t, m, 4),
            base_url,
        )
}

/// Resolves the relative links of a page against the base URL.
pub fn resolve_links(html: &str, base_url: &str) -> (r: String)
    ensures
        r@ == rewritten(LINK@, html@, link_rewriting(base_url@)),
{
    let f = |t: &[char], m: &Found| -> (r: String)
        requires
            fits(t@.len(), m@),
        ensures
            r@ == link_rewriting(base_url@)(t@, m@),
        {
            resolve_link(
                m.whole(t),
                &m.group_text(t, 1),
                &m.group_text(t, 2),
                &m.group_text(t, 3),
                &m.group_text(t, 4),
                base_url,
            )
        };
    rewrite(LINK, html, f, Ghost(link_rewriting(base_url@)))
}

/// The HTML that is converted: that of the page, with the task statuses and
/// the macros of its storage form worked in, and its links resolved.
pub open spec fn prepared(
    html: Seq<char>,
    storage: Option<Seq<char>>,
    base_url: Seq<char>,
) -> Seq<char> {
    let tasks = match storage {
        Some(s) => with_task_statuses(html, s),
        None => html,
    };
    rewritten(LINK@, preprocessed(tasks), link_rewriting(base_url))
}

/// Prepares the HTML of a page for conversion.
pub fn prepare_html(html: &str, storage_html: Option<&str>, base_url: &str) -> (r: String)
    ensures
        r@ == prepared(html@, str_view(storage_html), base_url@),
{
    let html = match storage_html {
        Some(s) => preprocess_confluence_macros(&apply_task_list_statuses(html, s)),
        None => preprocess_confluence_macros(html),
    };
    resolve_links(&html, base_url)
}

/// A document: a heading, where the page comes from, and its body.
pub open spec fn document(
    title: Seq<char>,
    page_id: Seq<char>,
    webui: Option<Seq<char>>,
    body: Seq<char>,
) -> Seq<char> {
    let url_line = match webui {
        Some(url) => "- URL: "@ + url + "\n"@,
        None => ""@,
    };
    "# "@ + title + "\n\n- Confluence Page ID: "@ + page_id + "\n"@ + url_line
        + "- HTML source used for conversion: body.export_view\n\n---\n\n"@ + body + "\n"@
}

/// Puts a document together.
pub fn build_document(title: &str, page_id: &str, webui: Option<&str>, body: &str) -> (r: String)
    ensures
        r@ == document(title@, page_id@, str_view(webui), body@),
{
    let mut url_line: String = "".to_owned();
    if let Some(url) = webui {
        url_line = "- URL: ".to_owned();
        url_line.append(url);
        url_line.append("\n");
    }
    let mut out: String = "# ".to_owned();
    out.append(title);
    out.append("\n\n- Confluence Page ID: ");
    out.append(page_id);
    out.append("\n");
    out.append(&url_line);
    out.append("- HTML source used for conversion: body.export_view\n\n---\n\n");
    out.append(body);
    out.append("\n");
    out
}

} // verus!
