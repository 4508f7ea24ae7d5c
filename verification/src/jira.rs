//! Jira issues in Confluence HTML.
//!
//! A page may hold storage-format Jira macros or rendered `jira-issue` spans.
//! Both become simple issue links, without summary or status placeholders.

use vstd::prelude::*;
use vstd::string::StringExecFns;

use crate::macros::{extract_macro_param, macro_param};
use crate::pattern::{
    all_matches, find_first, first_group, first_group_of, first_match, fits, group, group_text,
    law_rewriting_nothing, rewrite, rewritten, whole_span, whole_text, Found, Span,
};
use crate::text::{
    chars_of, find_from, index_from, lemma_index_extended, lemma_index_from, lemma_index_shift,
    moved, occurs_at, opt_view, or_empty, part, push_part, str_view, trim, trimmed, white,
};
use crate::utils::{
    attribute_decoded, decode_html_attribute, escape_html, escaped, strip_tags, stripped,
};

verus! {

/// The pattern of a rendered issue: its key and the address of its link.
pub const RENDERED_ISSUE: &'static str =
    r#"(?is)<span\b[^>]*\bclass="[^"]*\bjira-issue\b[^"]*"[^>]*\bdata-jira-key="([^"]+)"[^>]*>.*?<a\b[^>]*\bhref="([^"]*)""#;

/// The pattern of a storage-format Jira macro.
pub const JIRA_MACRO: &'static str =
    r#"(?is)<ac:structured-macro\b[^>]*\bac:name="jira".*?</ac:structured-macro>"#;

/// The pattern of a link: its address and its content.
pub const ISSUE_LINK: &'static str = r#"(?is)<a\b[^>]*\bhref="([^"]*)"[^>]*>(.*?)</a>"#;

/// The pattern of a declared issue key.
pub const ISSUE_KEY: &'static str = r#"(?i)data-jira-key="([^"]+)""#;

/// The pattern of the opening tag of a rendered issue.
pub const ISSUE_SPAN_OPEN: &'static str =
    r#"(?is)<span\b[^>]*\bclass="[^"]*\bjira-issue\b[^"]*"[^>]*>"#;

/// The start of an opening span tag.
pub const SPAN_OPEN: &'static str = "<span";

/// A closing span tag.
pub const SPAN_CLOSE: &'static str = "</span>";

/// The link to an issue.
pub open spec fn issue_link(key: Seq<char>, href: Seq<char>) -> Seq<char> {
    "<a href=\""@ + escaped(href) + "\">"@ + escaped(key) + "</a>"@
}

/// The link to an issue.
pub fn jira_link_html(key: &str, href: &str) -> (r: String)
    ensures
        r@ == issue_link(key@, href@),
{
    let mut out: String = "<a href=\"".to_owned();
    out.append(&escape_html(href));
    out.append("\">");
    out.append(&escape_html(key));
    out.append("</a>");
    out
}

/// The part of an issue's address up to and with `/browse`.
pub open spec fn browse_base(href: Seq<char>, key: Seq<char>) -> Option<Seq<char>> {
    match index_from(href, "/browse/"@ + key, 0) {
        Some(i) => Some(href.subrange(0, i + 7)),
        None => None,
    }
}

/// The part of an issue's address up to and with `/browse`.
pub fn jira_browse_base_url_from_href(href: &str, key: &str) -> (r: Option<String>)
    ensures
        opt_view(r) == browse_base(href@, key@),
{
    let mut needle: String = "/browse/".to_owned();
    needle.append(key);
    let t = chars_of(href);
    proof {
        reveal_strlit("/browse/");
        lemma_index_from(t@, needle@, 0);
    }
    match find_from(&t, &needle, 0) {
        Some(i) => Some(part(&t, 0, i + 7)),
        None => None,
    }
}

/// The browse address that a page's first rendered issue shows.
pub open spec fn page_browse_base(t: Seq<char>) -> Option<Seq<char>> {
    match (first_group(RENDERED_ISSUE@, t, 1), first_group(RENDERED_ISSUE@, t, 2)) {
        (Some(key), Some(href)) => browse_base(attribute_decoded(href), attribute_decoded(key)),
        _ => None,
    }
}

/// The browse address that a page's first rendered issue shows.
pub fn find_jira_browse_base_url(html: &str) -> (r: Option<String>)
    ensures
        opt_view(r) == page_browse_base(html@),
{
    let m = match find_first(RENDERED_ISSUE, html) {
        Some(m) => m,
        None => {
            return None;
        },
    };
    let t = chars_of(html);
    match (m.group(&t, 1), m.group(&t, 2)) {
        (Some(key), Some(href)) => jira_browse_base_url_from_href(
            &decode_html_attribute(&href),
            &decode_html_attribute(&key),
        ),
        _ => None,
    }
}

/// What a storage-format macro for an issue becomes: its link, its bare key
/// where no browse address is known, nothing where it names no key.
pub open spec fn issue_html(key: Seq<char>, base: Option<Seq<char>>) -> Seq<char> {
    if key.len() == 0 {
        Seq::empty()
    } else {
        match base {
            Some(b) => issue_link(key, b + "/"@ + key),
            None => escaped(key),
        }
    }
}

/// What a storage-format macro for an issue becomes.
pub fn render_issue(key: &str, base: Option<&str>) -> (r: String)
    ensures
        r@ == issue_html(key@, str_view(base)),
{
    if chars_of(key).len() == 0 {
        return String::new();
    }
    match base {
        Some(b) => {
            let mut href: String = b.to_owned();
            href.append("/");
            href.append(key);
            jira_link_html(key, &href)
        },
        None => escape_html(key),
    }
}

/// What replaces a storage-format macro.
pub open spec fn issue_rewriting(base: Option<Seq<char>>) -> spec_fn(
    Seq<char>,
    Seq<Option<Span>>,
) -> Seq<char> {
    |t: Seq<char>, m: Seq<Option<Span>>|
        issue_html(or_empty(macro_param(whole_text(t, m), "key"@)), base)
}

/// Rewrites storage-format macros.
pub fn replace_storage_jira_macros(html: &str, jira_browse_base_url: Option<&str>) -> (r: String)
    ensures
        r@ == rewritten(
            JIRA_MACRO@,
            html@,
            issue_rewriting(str_view(jira_browse_base_url)),
        ),
{
    let f = |t: &[char], m: &Found| -> (r: String)
        requires
            fits(t@.len(), m@),
        ensures
            r@ == issue_rewriting(str_view(jira_browse_base_url))(t@, m@),
        {
            let key = match extract_macro_param(&m.whole(t), "key") {
                Some(k) => k,
                None => String::new(),
            };
            render_issue(&key, jira_browse_base_url)
        };
    rewrite(JIRA_MACRO, html, f, Ghost(issue_rewriting(str_view(jira_browse_base_url))))
}

/// The link for a rendered issue: its key is the declared one, unless that is
/// missing or blank; then the text of the link. None where the address or the
/// key is empty.
pub open spec fn rendered_link(
    href: Seq<char>,
    declared_key: Option<Seq<char>>,
    link_text: Seq<char>,
) -> Option<Seq<char>> {
    let declared = match declared_key {
        Some(k) => attribute_decoded(k),
        None => Seq::empty(),
    };
    let key = if trimmed(declared, white()).len() > 0 {
        declared
    } else {
        stripped(link_text)
    };
    let address = attribute_decoded(href);
    if address.len() == 0 || key.len() == 0 {
        None
    } else {
        Some(issue_link(key, address))
    }
}

/// The link for a rendered issue, from what its HTML holds.
pub fn render_issue_link(href: &str, declared_key: Option<String>, link_text: &str) -> (r: Option<
    String,
>)
    ensures
        opt_view(r) == rendered_link(href@, opt_view(declared_key), link_text@),
{
    let declared = match declared_key {
        Some(k) => decode_html_attribute(&k),
        None => String::new(),
    };
    let key = if chars_of(&trim(&declared)).len() > 0 {
        declared
    } else {
        strip_tags(link_text)
    };
    let address = decode_html_attribute(href);
    if chars_of(&address).len() == 0 || chars_of(&key).len() == 0 {
        None
    } else {
        Some(jira_link_html(&key, &address))
    }
}

/// The link for a rendered `jira-issue` span.
pub open spec fn span_link(span: Seq<char>) -> Option<Seq<char>> {
    match first_match(ISSUE_LINK@, span) {
        Some(link) => match group(span, link, 1) {
            Some(href) => rendered_link(
                href,
                first_group(ISSUE_KEY@, span, 1),
                group_text(span, link, 2),
            ),
            None => None,
        },
        None => None,
    }
}

/// The link for a rendered `jira-issue` span.
pub fn rendered_jira_issue_link_html(jira_issue_span: &str) -> (r: Option<String>)
    ensures
        opt_view(r) == span_link(jira_issue_span@),
{
    let link = match find_first(ISSUE_LINK, jira_issue_span) {
        Some(m) => m,
        None => {
            return None;
        },
    };
    let t = chars_of(jira_issue_span);
    match link.group(&t, 1) {
        Some(href) => {
            let key = first_group_of(ISSUE_KEY, jira_issue_span, 1);
            render_issue_link(&href, key, &link.group_text(&t, 2))
        },
        None => None,
    }
}

/// The first `>` at or after `i` that does not stand inside quotes; `quote` is
/// the quotation mark that is open.
pub open spec fn unquoted_end(t: Seq<char>, i: int, quote: Option<char>) -> Option<int>
    decreases t.len() - i,
{
    if i < 0 || i >= t.len() {
        None
    } else if quote is None && t[i] == '>' {
        Some(i)
    } else {
        unquoted_end(
            t,
            i + 1,
            if quote is None && (t[i] == '\'' || t[i] == '"') {
                Some(t[i])
            } else if quote == Some(t[i]) {
                None
            } else {
                quote
            },
        )
    }
}

pub proof fn lemma_unquoted_end(t: Seq<char>, i: int, quote: Option<char>)
    requires
        0 <= i,
    ensures
        unquoted_end(t, i, quote) matches Some(e) ==> i <= e < t.len() && t[e] == '>',
    decreases t.len() - i,
{
    if i < t.len() && !(quote is None && t[i] == '>') {
        lemma_unquoted_end(
            t,
            i + 1,
            if quote is None && (t[i] == '\'' || t[i] == '"') {
                Some(t[i])
            } else if quote == Some(t[i]) {
                None
            } else {
                quote
            },
        );
    }
}

/// The end of the tag that starts at `start`: the first `>` that does not
/// stand inside quotes.
pub fn find_tag_end(t: &[char], start: usize) -> (r: Option<usize>)
    requires
        start <= t.len(),
    ensures
        match r {
            Some(e) => unquoted_end(t@, start as int, None) == Some(e as int) && start <= e
                < t.len(),
            None => unquoted_end(t@, start as int, None) is None,
        },
{
    let mut i: usize = start;
    let mut quote: Option<char> = None;
    while i < t.len()
        invariant
            start <= i <= t.len(),
            unquoted_end(t@, start as int, None) == unquoted_end(t@, i as int, quote),
        decreases t.len() - i,
    {
        let c: char = t[i];
        match quote {
            None => {
                if c == '>' {
                    return Some(i);
                }
                if c == '\'' || c == '"' {
                    quote = Some(c);
                }
            },
            Some(q) => {
                if c == q {
                    quote = None;
                }
            },
        }
        i += 1;
    }
    None
}

/// The position behind the closing tag of the outermost of `depth` open
/// spans, searched from `i` on. A self-closing span opens nothing; an opening
/// tag that never ends leaves all spans open.
pub open spec fn span_close(t: Seq<char>, i: int, depth: int) -> Option<int>
    decreases t.len() - i,
{
    match index_from(t, SPAN_CLOSE@, i) {
        None => None,
        Some(close) => {
            let open = index_from(t, SPAN_OPEN@, i);
            if open is Some && open->0 < close {
                match unquoted_end(t, open->0, None) {
                    Some(e) => if i <= e < t.len() {
                        span_close(
                            t,
                            e + 1,
                            if t[e - 1] == '/' {
                                depth
                            } else {
                                depth + 1
                            },
                        )
                    } else {
                        None
                    },
                    None => None,
                }
            } else if depth <= 1 {
                Some(close + SPAN_CLOSE@.len() as int)
            } else if i < close + SPAN_CLOSE@.len() <= t.len() {
                span_close(t, close + SPAN_CLOSE@.len(), depth - 1)
            } else {
                None
            }
        },
    }
}

pub proof fn lemma_span_close(t: Seq<char>, i: int, depth: int)
    requires
        0 <= i,
    ensures
        span_close(t, i, depth) matches Some(e) ==> i < e <= t.len(),
    decreases t.len() - i,
{
    reveal_strlit("<span");
    reveal_strlit("</span>");
    lemma_index_from(t, SPAN_CLOSE@, i);
    lemma_index_from(t, SPAN_OPEN@, i);
    if let Some(close) = index_from(t, SPAN_CLOSE@, i) {
        let open = index_from(t, SPAN_OPEN@, i);
        if open is Some && open->0 < close {
            lemma_unquoted_end(t, open->0, None);
            if let Some(e) = unquoted_end(t, open->0, None) {
                lemma_span_close(
                    t,
                    e + 1,
                    if t[e - 1] == '/' {
                        depth
                    } else {
                        depth + 1
                    },
                );
            }
        } else if depth > 1 {
            lemma_span_close(t, close + SPAN_CLOSE@.len(), depth - 1);
        }
    }
}

/// The position behind the closing tag of the span whose opening tag ends
/// before `from`.
pub fn find_span_close(t: &[char], from: usize) -> (r: Option<usize>)
    requires
        from <= t.len(),
    ensures
        match r {
            Some(e) => span_close(t@, from as int, 1) == Some(e as int) && from < e <= t.len(),
            None => span_close(t@, from as int, 1) is None,
        },
{
    proof {
        reveal_strlit("<span");
        reveal_strlit("</span>");
        lemma_span_close(t@, from as int, 1);
    }
    let mut depth: usize = 1;
    let mut i: usize = from;
    loop
        invariant
            from <= i <= t.len(),
            1 <= depth <= i - from + 1,
            span_close(t@, from as int, 1) == span_close(t@, i as int, depth as int),
            span_close(t@, from as int, 1) matches Some(e) ==> from < e <= t.len(),
            SPAN_OPEN@.len() == 5,
            SPAN_OPEN@[0] == '<',
            SPAN_CLOSE@.len() == 7,
        decreases t.len() - i,
    {
        proof {
            lemma_index_from(t@, SPAN_CLOSE@, i as int);
            lemma_index_from(t@, SPAN_OPEN@, i as int);
        }
        let close = match find_from(t, SPAN_CLOSE, i) {
            Some(c) => c,
            None => {
                return None;
            },
        };
        let open: usize = match find_from(t, SPAN_OPEN, i) {
            Some(o) => o,
            None => close,
        };
        if open < close {
            assert(t@.subrange(open as int, open + 5)[0] == '<');
            match find_tag_end(t, open) {
                Some(e) => {
                    proof {
                        lemma_unquoted_end(t@, open as int, None);
                    }
                    if t[e - 1] != '/' {
                        depth += 1;
                    }
                    i = e + 1;
                },
                None => {
                    return None;
                },
            }
        } else {
            if depth == 1 {
                return Some(close + 7);
            }
            depth -= 1;
            i = close + 7;
        }
    }
}

/// `t` from `i` on, with its rendered issue spans rewritten. A span that is
/// never closed, or that shows no link, stays as it is.
#[verifier::opaque]
pub open spec fn spans_linked_from(t: Seq<char>, i: int) -> Seq<char>
    decreases t.len() - i,
{
    let rest = t.subrange(i, t.len() as int);
    match first_match(ISSUE_SPAN_OPEN@, rest) {
        None => rest,
        Some(m) => {
            let start = i + whole_span(m).start;
            let behind = i + whole_span(m).end;
            if !(0 <= i <= start <= behind && i < behind <= t.len()) {
                rest
            } else {
                match span_close(t, behind, 1) {
                    None => t.subrange(i, behind) + spans_linked_from(t, behind),
                    Some(end) => if behind < end <= t.len() {
                        let span = t.subrange(start, end);
                        t.subrange(i, start) + (match span_link(span) {
                            Some(link) => link,
                            None => span,
                        }) + spans_linked_from(t, end)
                    } else {
                        rest
                    },
                }
            }
        },
    }
}

/// Rewrites rendered `jira-issue` spans to simple issue links.
pub fn replace_rendered_jira_issue_spans(html: &str) -> (r: String)
    ensures
        r@ == spans_linked_from(html@, 0),
{
    let t = chars_of(html);
    let mut out: String = String::new();
    let mut i: usize = 0;
    loop
        invariant
            t@ == html@,
            i <= t.len(),
            out@ + spans_linked_from(t@, i as int) == spans_linked_from(t@, 0),
        decreases t.len() - i,
    {
        let ghost before = out@;
        let ghost linked = spans_linked_from(t@, i as int);
        reveal(spans_linked_from);
        let rest = part(&t, i, t.len());
        let m = match find_first(ISSUE_SPAN_OPEN, &rest) {
            Some(m) => m,
            None => {
                out.append(&rest);
                return out;
            },
        };
        let at = m.span();
        if at.end == 0 {
            out.append(&rest);
            return out;
        }
        assert(rest@.len() == t.len() - i);
        let start: usize = i + at.start;
        let behind: usize = i + at.end;
        proof {
            lemma_span_close(t@, behind as int, 1);
        }
        match find_span_close(&t, behind) {
            None => {
                push_part(&mut out, &t, i, behind);
                i = behind;
            },
            Some(end) => {
                push_part(&mut out, &t, i, start);
                let span = part(&t, start, end);
                match rendered_jira_issue_link_html(&span) {
                    Some(link) => out.append(&link),
                    None => out.append(&span),
                }
                i = end;
            },
        }
        assert(out@ + spans_linked_from(t@, i as int) =~= before + linked);
    }
}

pub proof fn lemma_unquoted_end_shift(t: Seq<char>, k: int, i: int, quote: Option<char>)
    requires
        0 <= k <= i <= t.len(),
    ensures
        unquoted_end(t, i, quote) == moved(unquoted_end(t.skip(k), i - k, quote), k),
    decreases t.len() - i,
{
    if i < t.len() {
        let u = t.skip(k);
        assert(u[i - k] == t[i]);
        let next = if quote is None && (t[i] == '\'' || t[i] == '"') {
            Some(t[i])
        } else if quote == Some(t[i]) {
            None
        } else {
            quote
        };
        lemma_unquoted_end_shift(t, k, i + 1, next);
    }
}

proof fn lemma_unquoted_end_extended(a: Seq<char>, b: Seq<char>, i: int, quote: Option<char>)
    requires
        0 <= i,
        unquoted_end(a, i, quote) is Some,
    ensures
        unquoted_end(a + b, i, quote) == unquoted_end(a, i, quote),
    decreases a.len() - i,
{
    if i < a.len() {
        assert((a + b)[i] == a[i]);
        let next = if quote is None && (a[i] == '\'' || a[i] == '"') {
            Some(a[i])
        } else if quote == Some(a[i]) {
            None
        } else {
            quote
        };
        if !(quote is None && a[i] == '>') {
            lemma_unquoted_end_extended(a, b, i + 1, next);
        }
    }
}

/// An opening tag ends behind its first character.
proof fn lemma_tag_ends_behind(t: Seq<char>, open: int)
    requires
        occurs_at(t, SPAN_OPEN@, open),
    ensures
        unquoted_end(t, open, None) matches Some(e) ==> open < e < t.len(),
{
    reveal_strlit("<span");
    assert(t.subrange(open, open + 5)[0] == '<');
    lemma_unquoted_end(t, open, None);
}

pub proof fn lemma_span_close_shift(t: Seq<char>, k: int, i: int, depth: int)
    requires
        0 <= k <= i <= t.len(),
    ensures
        span_close(t, i, depth) == moved(span_close(t.skip(k), i - k, depth), k),
    decreases t.len() - i,
{
    reveal_strlit("<span");
    reveal_strlit("</span>");
    let u = t.skip(k);
    lemma_index_shift(t, SPAN_CLOSE@, k, i);
    lemma_index_shift(t, SPAN_OPEN@, k, i);
    lemma_index_from(t, SPAN_CLOSE@, i);
    lemma_index_from(t, SPAN_OPEN@, i);
    if let Some(close) = index_from(t, SPAN_CLOSE@, i) {
        let open = index_from(t, SPAN_OPEN@, i);
        if open is Some && open->0 < close {
            lemma_unquoted_end_shift(t, k, open->0, None);
            lemma_tag_ends_behind(t, open->0);
            if let Some(e) = unquoted_end(t, open->0, None) {
                assert(u[e - 1 - k] == t[e - 1]);
                let next = if t[e - 1] == '/' {
                    depth
                } else {
                    depth + 1
                };
                lemma_span_close_shift(t, k, e + 1, next);
            }
        } else if depth > 1 {
            lemma_span_close_shift(t, k, close + SPAN_CLOSE@.len(), depth - 1);
        }
    }
}

/// A span that is closed in a text is closed at the same place whatever
/// follows.
proof fn lemma_span_close_extended(a: Seq<char>, b: Seq<char>, i: int, depth: int)
    requires
        0 <= i <= a.len(),
        span_close(a, i, depth) is Some,
    ensures
        span_close(a + b, i, depth) == span_close(a, i, depth),
    decreases a.len() - i,
{
    reveal_strlit("<span");
    reveal_strlit("</span>");
    let t = a + b;
    lemma_index_extended(a, b, SPAN_CLOSE@, i);
    lemma_index_from(a, SPAN_CLOSE@, i);
    lemma_index_from(a, SPAN_OPEN@, i);
    lemma_index_from(t, SPAN_OPEN@, i);
    let close = index_from(a, SPAN_CLOSE@, i)->0;
    let open = index_from(a, SPAN_OPEN@, i);
    let found = index_from(t, SPAN_OPEN@, i);
    if open is Some {
        lemma_index_extended(a, b, SPAN_OPEN@, i);
    } else if found is Some && found->0 < close {
        assert(t.subrange(found->0, found->0 + 5) =~= a.subrange(found->0, found->0 + 5));
        assert(occurs_at(a, SPAN_OPEN@, found->0));
    }
    if open is Some && open->0 < close {
        lemma_unquoted_end_extended(a, b, open->0, None);
        lemma_tag_ends_behind(a, open->0);
        let e = unquoted_end(a, open->0, None)->0;
        assert(t[e - 1] == a[e - 1]);
        let next = if a[e - 1] == '/' {
            depth
        } else {
            depth + 1
        };
        lemma_span_close_extended(a, b, e + 1, next);
    } else if depth > 1 {
        lemma_span_close_extended(a, b, close + SPAN_CLOSE@.len(), depth - 1);
    }
}

/// What a search finds in the rest of a text, one span at a time.
proof fn lemma_spans_linked_step(t: Seq<char>, i: int, m: Seq<Option<Span>>)
    requires
        0 <= i <= t.len(),
        first_match(ISSUE_SPAN_OPEN@, t.skip(i)) == Some(m),
        whole_span(m).start <= whole_span(m).end,
        0 < whole_span(m).end <= t.len() - i,
    ensures
        ({
            let start = i + whole_span(m).start;
            let behind = i + whole_span(m).end;
            match span_close(t, behind, 1) {
                None => spans_linked_from(t, i) == t.subrange(i, behind) + spans_linked_from(
                    t,
                    behind,
                ),
                Some(end) => behind < end <= t.len() && spans_linked_from(t, i) == t.subrange(
                    i,
                    start,
                ) + (match span_link(t.subrange(start, end)) {
                    Some(link) => link,
                    None => t.subrange(start, end),
                }) + spans_linked_from(t, end),
            }
        }),
{
    reveal(spans_linked_from);
    assert(t.subrange(i, t.len() as int) =~= t.skip(i));
    lemma_span_close(t, i + whole_span(m).end, 1);
}

proof fn lemma_spans_linked_stop(t: Seq<char>, i: int)
    requires
        0 <= i <= t.len(),
        first_match(ISSUE_SPAN_OPEN@, t.skip(i)) matches Some(m) ==> !(0 < whole_span(m).end
            <= t.len() - i && whole_span(m).start <= whole_span(m).end),
    ensures
        spans_linked_from(t, i) == t.skip(i),
{
    reveal(spans_linked_from);
    assert(t.subrange(i, t.len() as int) =~= t.skip(i));
}

proof fn lemma_spans_linked_rest(t: Seq<char>, i: int)
    requires
        0 <= i <= t.len(),
    ensures
        spans_linked_from(t, i) == spans_linked_from(t.skip(i), 0),
    decreases t.len() - i,
{
    let u = t.skip(i);
    let n = u.len() as int;
    assert(u.skip(0) =~= u);
    let found = first_match(ISSUE_SPAN_OPEN@, u);
    if found is Some && 0 < whole_span(found->0).end <= n && whole_span(found->0).start
        <= whole_span(found->0).end {
        let m = found->0;
        let start = whole_span(m).start as int;
        let behind = whole_span(m).end as int;
        lemma_spans_linked_step(t, i, m);
        lemma_spans_linked_step(u, 0, m);
        lemma_span_close_shift(t, i, i + behind, 1);
        match span_close(u, behind, 1) {
            None => {
                lemma_spans_linked_rest(t, i + behind);
                if i > 0 {
                    lemma_spans_linked_rest(u, behind);
                    assert(t.skip(i + behind) =~= u.skip(behind));
                    assert(t.subrange(i, i + behind) =~= u.subrange(0, behind));
                } else {
                    assert(u =~= t);
                }
            },
            Some(end) => {
                lemma_spans_linked_rest(t, i + end);
                if i > 0 {
                    lemma_spans_linked_rest(u, end);
                    assert(t.skip(i + end) =~= u.skip(end));
                    assert(t.subrange(i, i + start) =~= u.subrange(0, start));
                    assert(t.subrange(i + start, i + end) =~= u.subrange(start, end));
                } else {
                    assert(u =~= t);
                }
            },
        }
    } else {
        lemma_spans_linked_stop(t, i);
        lemma_spans_linked_stop(u, 0);
    }
}

/// A page with its rendered issue spans rewritten.
pub open spec fn linked(t: Seq<char>) -> Seq<char> {
    spans_linked_from(t, 0)
}

/// A page is rewritten span by span: what stands before its first issue span
/// stays, the span becomes its link, and what stands behind the span is
/// rewritten as a page of its own. A span that is never closed stays.
pub proof fn law_issue_then_the_rest(t: Seq<char>, m: Seq<Option<Span>>)
    requires
        first_match(ISSUE_SPAN_OPEN@, t) == Some(m),
        fits(t.len(), m),
        m[0]->0.end > 0,
    ensures
        match span_close(t, m[0]->0.end as int, 1) {
            Some(end) => linked(t) == t.take(m[0]->0.start as int) + (match span_link(
                t.subrange(m[0]->0.start as int, end),
            ) {
                Some(link) => link,
                None => t.subrange(m[0]->0.start as int, end),
            }) + linked(t.skip(end)),
            None => linked(t) == t.take(m[0]->0.end as int) + linked(t.skip(m[0]->0.end as int)),
        },
{
    let start = m[0]->0.start as int;
    let behind = m[0]->0.end as int;
    assert(start <= behind <= t.len());
    assert(t.skip(0) =~= t);
    lemma_spans_linked_step(t, 0, m);
    assert(t.subrange(0, start) =~= t.take(start));
    assert(t.subrange(0, behind) =~= t.take(behind));
    match span_close(t, behind, 1) {
        Some(end) => {
            lemma_spans_linked_rest(t, end);
        },
        None => {
            lemma_spans_linked_rest(t, behind);
        },
    }
}

/// The place of the first opening tag of an issue span.
pub open spec fn first_opening(t: Seq<char>) -> Option<(int, int)> {
    match first_match(ISSUE_SPAN_OPEN@, t) {
        Some(m) => Some((m[0]->0.start as int, m[0]->0.end as int)),
        None => None,
    }
}

/// Whether a search finds a place in a text, or nothing.
pub open spec fn opening_fits(t: Seq<char>) -> bool {
    first_match(ISSUE_SPAN_OPEN@, t) matches Some(m) ==> fits(t.len(), m) && m[0]->0.end > 0
}

/// Whether `a` ends outside any issue span when `b` follows: the searches in
/// both together find the opening tags of `a`, all of whose spans are closed
/// in `a`, and then those of `b`.
pub open spec fn ends_outside(a: Seq<char>, b: Seq<char>) -> bool
    decreases a.len(),
{
    &&& opening_fits(a)
    &&& opening_fits(b)
    &&& opening_fits(a + b)
    &&& match first_opening(a) {
        None => first_opening(a + b) == match first_opening(b) {
            Some((start, behind)) => Some((start + a.len(), behind + a.len())),
            None => None,
        },
        Some((start, behind)) => {
            &&& first_opening(a + b) == Some((start, behind))
            &&& span_close(a, behind, 1) is Some
            &&& 0 < span_close(a, behind, 1)->0 <= a.len()
            &&& ends_outside(a.skip(span_close(a, behind, 1)->0), b)
        },
    }
}

proof fn lemma_three(a: Seq<char>, b: Seq<char>, c: Seq<char>)
    ensures
        a + b + c == a + (b + c),
{
    assert(a + b + c =~= a + (b + c));
}

proof fn lemma_linking_behind(
    a: Seq<char>,
    b: Seq<char>,
    mt: Seq<Option<Span>>,
    mb: Seq<Option<Span>>,
)
    requires
        first_match(ISSUE_SPAN_OPEN@, b) == Some(mb),
        first_match(ISSUE_SPAN_OPEN@, a + b) == Some(mt),
        fits(b.len(), mb),
        fits((a + b).len(), mt),
        mb[0]->0.end > 0,
        mt[0]->0.start == a.len() + mb[0]->0.start,
        mt[0]->0.end == a.len() + mb[0]->0.end,
    ensures
        linked(a + b) == a + linked(b),
{
    let t = a + b;
    let n = a.len() as int;
    let start = mb[0]->0.start as int;
    let behind = mb[0]->0.end as int;
    law_issue_then_the_rest(t, mt);
    law_issue_then_the_rest(b, mb);
    lemma_span_close_shift(t, n, n + behind, 1);
    lemma_span_close(b, behind, 1);
    assert(t.skip(n) =~= b);
    assert(start <= behind <= b.len());
    match span_close(b, behind, 1) {
        None => {
            assert(t.take(n + behind) =~= a + b.take(behind));
            assert(t.skip(n + behind) =~= b.skip(behind));
            lemma_three(a, b.take(behind), linked(b.skip(behind)));
        },
        Some(end) => {
            assert(t.take(n + start) =~= a + b.take(start));
            assert(t.subrange(n + start, n + end) =~= b.subrange(start, end));
            assert(t.skip(n + end) =~= b.skip(end));
            let span = b.subrange(start, end);
            let shown = match span_link(span) {
                Some(link) => link,
                None => span,
            };
            lemma_three(a, b.take(start), shown);
            lemma_three(a, b.take(start) + shown, linked(b.skip(end)));
        },
    }
}

proof fn lemma_nothing_linked(t: Seq<char>)
    requires
        first_match(ISSUE_SPAN_OPEN@, t) is None,
    ensures
        linked(t) == t,
{
    assert(t.skip(0) =~= t);
    lemma_spans_linked_stop(t, 0);
}

/// Where `a` ends outside any issue span, rewriting `a` and `b` together gives
/// the rewriting of `a` followed by the rewriting of `b`.
pub proof fn law_linking_joins(a: Seq<char>, b: Seq<char>)
    requires
        ends_outside(a, b),
    ensures
        linked(a + b) == linked(a) + linked(b),
    decreases a.len(),
{
    let t = a + b;
    match first_match(ISSUE_SPAN_OPEN@, a) {
        None => {
            lemma_nothing_linked(a);
            match first_match(ISSUE_SPAN_OPEN@, b) {
                None => {
                    lemma_nothing_linked(b);
                    lemma_nothing_linked(t);
                },
                Some(mb) => {
                    lemma_linking_behind(a, b, first_match(ISSUE_SPAN_OPEN@, t)->0, mb);
                },
            }
        },
        Some(ma) => {
            let mt = first_match(ISSUE_SPAN_OPEN@, t)->0;
            let start = ma[0]->0.start as int;
            let behind = ma[0]->0.end as int;
            let end = span_close(a, behind, 1)->0;
            lemma_span_close(a, behind, 1);
            lemma_span_close_extended(a, b, behind, 1);
            law_issue_then_the_rest(t, mt);
            law_issue_then_the_rest(a, ma);
            law_linking_joins(a.skip(end), b);
            assert(start <= behind < end <= a.len());
            assert(t.skip(end) =~= a.skip(end) + b);
            assert(t.take(start) =~= a.take(start));
            assert(t.subrange(start, end) =~= a.subrange(start, end));
            assert(linked(t) =~= linked(a) + linked(b));
        },
    }
}

/// An issue span that is closed and shows a link becomes that link, wherever
/// it stands on the page; what stands before and behind it is rewritten as it
/// is by itself.
pub proof fn law_issue_becomes_its_link(a: Seq<char>, span: Seq<char>, b: Seq<char>)
    requires
        ends_outside(a, span + b),
        first_opening(span + b) matches Some((start, behind)) && start == 0 && span_close(
            span + b,
            behind,
            1,
        ) == Some(span.len() as int),
        span_link(span) is Some,
    ensures
        linked(a + (span + b)) == linked(a) + span_link(span)->0 + linked(b),
{
    let t = span + b;
    let m = first_match(ISSUE_SPAN_OPEN@, t)->0;
    law_linking_joins(a, t);
    lemma_ends_outside_fits(a, t);
    law_issue_then_the_rest(t, m);
    assert(t.subrange(0, span.len() as int) =~= span);
    assert(t.skip(span.len() as int) =~= b);
    assert(t.take(0) =~= Seq::empty());
    assert(linked(a + t) =~= linked(a) + span_link(span)->0 + linked(b));
}

proof fn lemma_ends_outside_fits(a: Seq<char>, b: Seq<char>)
    requires
        ends_outside(a, b),
    ensures
        opening_fits(b),
{
}

/// A text with its Jira issues rewritten: storage-format macros first, with
/// the browse address of the page's first rendered issue, then rendered
/// spans.
pub open spec fn issues_linked(t: Seq<char>) -> Seq<char> {
    spans_linked_from(rewritten(JIRA_MACRO@, t, issue_rewriting(page_browse_base(t))), 0)
}

/// Where no storage-format macro stands on a page, its rendered spans alone
/// are rewritten; where no span stands on it once its macros are, the macros
/// alone.
pub proof fn law_issues_of_one_kind(t: Seq<char>)
    ensures
        all_matches(JIRA_MACRO@, t).len() == 0 ==> issues_linked(t) == linked(t),
        ({
            let r = rewritten(JIRA_MACRO@, t, issue_rewriting(page_browse_base(t)));
            first_match(ISSUE_SPAN_OPEN@, r) is None ==> issues_linked(t) == r
        }),
{
    let g = issue_rewriting(page_browse_base(t));
    let r = rewritten(JIRA_MACRO@, t, g);
    if all_matches(JIRA_MACRO@, t).len() == 0 {
        law_rewriting_nothing(JIRA_MACRO@, t, g);
    }
    if first_match(ISSUE_SPAN_OPEN@, r) is None {
        lemma_nothing_linked(r);
    }
}

/// A text without Jira macros and without rendered issues is left as it is.
pub proof fn law_jira_leaves_other_html(t: Seq<char>)
    requires
        all_matches(JIRA_MACRO@, t).len() == 0,
        first_match(ISSUE_SPAN_OPEN@, t) is None,
    ensures
        issues_linked(t) == t,
{
    let g = issue_rewriting(page_browse_base(t));
    law_rewriting_nothing(JIRA_MACRO@, t, g);
    lemma_nothing_linked(t);
}

/// Rewrites Confluence Jira macros and spans to simple issue links.
///
/// Storage-format macros do not contain their browse URL, so it is taken from
/// a rendered issue link in the same text when there is one. If there is none,
/// the macro becomes the plain issue key rather than an invented address.
pub fn replace_jira_macros(html: &str) -> (r: String)
    ensures
        r@ == issues_linked(html@),
{
    let base = find_jira_browse_base_url(html);
    let rewritten = match &base {
        Some(b) => replace_storage_jira_macros(html, Some(b)),
        None => replace_storage_jira_macros(html, None),
    };
    replace_rendered_jira_issue_spans(&rewritten)
}

} // verus!
