//! Confluence storage-format macros, rewritten into plain HTML that the
//! Markdown converter knows how to handle.

use vstd::prelude::*;
use vstd::string::StringExecFns;

use crate::jira::{
    issues_linked, law_jira_leaves_other_html, replace_jira_macros, ISSUE_SPAN_OPEN, JIRA_MACRO,
};
use crate::json::{json_read, parse_json};
use crate::lookup::TextMap;
use crate::pattern::{
    all_matches, find_all, first_group, first_group_of, first_match, fits, found_views, group_text,
    is_match, law_rewriting_nothing, rewrite, rewritten, well_placed, whole_span, whole_text, Found,
    Span,
};
use crate::text::{
    ascii_lower, chars_of, contains, find_from, find_last, index_from, last_index, lemma_index_from,
    lemma_last_index_from, lower, occurs_in, opt_view, or_empty, part, push_part, replace, replaced,
    same_text, split_words, trim, trim_end, trimmed, trimmed_end, views, white, words,
};
use crate::utils::{
    attribute_decoded, decode_html_attribute, escape_html, escaped, strip_tags, stripped,
};

verus! {

// ── Macro extraction ───────────────────────────────────────────────

/// The characters with a meaning of their own in a pattern.
pub open spec fn is_pattern_sign(c: char) -> bool {
    c == '\\' || c == '.' || c == '+' || c == '*' || c == '?' || c == '(' || c == ')' || c == '|'
        || c == '[' || c == ']' || c == '{' || c == '}' || c == '^' || c == '$' || c == '#' || c
        == '&' || c == '-' || c == '~'
}

/// The pattern that matches a text as it stands: a backslash before every
/// sign.
pub open spec fn pattern_literal(t: Seq<char>) -> Seq<char>
    decreases t.len(),
{
    if t.len() == 0 {
        Seq::empty()
    } else if is_pattern_sign(t.last()) {
        pattern_literal(t.drop_last()).push('\\').push(t.last())
    } else {
        pattern_literal(t.drop_last()).push(t.last())
    }
}

/// `regex::escape` puts a backslash before every character that has a meaning
/// of its own in a pattern, and keeps all others.
pub assume_specification[ regex::escape ](pattern: &str) -> (r: String)
    ensures
        r@ == pattern_literal(pattern@),
;

/// The pattern of a macro block.
///
/// Attributes are matched by `[^>]*`, so that a malformed opening tag never
/// reaches over the closing tag of a macro before it.
pub open spec fn macro_pattern(name: Seq<char>) -> Seq<char> {
    r#"(?is)<ac:structured-macro\b[^>]*\bac:name=""#@ + pattern_literal(name)
        + r#""[^>]*>.*?</ac:structured-macro>"#@
}

/// The pattern of a macro parameter.
pub open spec fn param_pattern(name: Seq<char>) -> Seq<char> {
    r#"(?is)<ac:parameter\b[^>]*ac:name=""#@ + pattern_literal(name)
        + r#""[^>]*>(.*?)</ac:parameter>"#@
}

/// The texts that a pattern matches.
pub open spec fn all_texts(pattern: Seq<char>, t: Seq<char>) -> Seq<Seq<char>> {
    let ms = all_matches(pattern, t);
    Seq::new(ms.len(), |i: int| whole_text(t, ms[i]))
}

/// The texts that a pattern matches.
pub fn matched_texts(pattern: &str, t: &str) -> (r: Vec<String>)
    ensures
        views(r@) == all_texts(pattern@, t@),
{
    let tc = chars_of(t);
    let ms = find_all(pattern, t);
    let ghost found = found_views(ms@);
    let mut out: Vec<String> = Vec::new();
    let mut i: usize = 0;
    while i < ms.len()
        invariant
            tc@ == t@,
            found == found_views(ms@),
            well_placed(t@.len(), found),
            i <= ms.len(),
            out.len() == i,
            forall|j: int| 0 <= j < i ==> (#[trigger] out[j])@ == whole_text(t@, found[j]),
        decreases ms.len() - i,
    {
        assert(fits(t@.len(), found[i as int]));
        out.push(ms[i].whole(&tc));
        i += 1;
    }
    assert(views(out@) =~= all_texts(pattern@, t@));
    out
}

/// Extracts every `<ac:structured-macro ac:name="$name">…</ac:structured-macro>`
/// block from the given storage HTML.
pub fn extract_macro_blocks(storage_html: &str, macro_name: &str) -> (r: Vec<String>)
    ensures
        views(r@) == all_texts(macro_pattern(macro_name@), storage_html@),
{
    let mut pattern: String = r#"(?is)<ac:structured-macro\b[^>]*\bac:name=""#.to_owned();
    pattern.append(&regex::escape(macro_name));
    pattern.append(r#""[^>]*>.*?</ac:structured-macro>"#);
    matched_texts(&pattern, storage_html)
}

/// The plain text of a group in the first match of a pattern.
pub open spec fn first_stripped(pattern: Seq<char>, t: Seq<char>, k: int) -> Option<Seq<char>> {
    match first_group(pattern, t, k) {
        Some(g) => Some(stripped(g)),
        None => None,
    }
}

/// The plain text of a group in the first match of a pattern.
pub fn first_stripped_of(pattern: &str, t: &str, k: usize) -> (r: Option<String>)
    ensures
        opt_view(r) == first_stripped(pattern@, t@, k as int),
{
    match first_group_of(pattern, t, k) {
        Some(g) => Some(strip_tags(&g)),
        None => None,
    }
}

/// The plain text of a parameter of a macro block.
pub open spec fn macro_param(block: Seq<char>, name: Seq<char>) -> Option<Seq<char>> {
    first_stripped(param_pattern(name), block, 1)
}

/// The plain text of a parameter of a macro block.
pub fn extract_macro_param(macro_block: &str, param_name: &str) -> (r: Option<String>)
    ensures
        opt_view(r) == macro_param(macro_block@, param_name@),
{
    let mut pattern: String = r#"(?is)<ac:parameter\b[^>]*ac:name=""#.to_owned();
    pattern.append(&regex::escape(param_name));
    pattern.append(r#""[^>]*>(.*?)</ac:parameter>"#);
    first_stripped_of(&pattern, macro_block, 1)
}

// ── Code macros ────────────────────────────────────────────────────

/// The pattern of a code macro.
pub const CODE_MACRO: &'static str =
    r#"(?is)<ac:structured-macro\b[^>]*\bac:name="code".*?</ac:structured-macro>"#;

/// The pattern of the language parameter of a code macro.
pub const CODE_LANGUAGE: &'static str =
    r#"(?is)<ac:parameter\b[^>]*\bac:name="language"[^>]*>(.*?)</ac:parameter>"#;

/// The pattern of the plain-text body of a macro.
pub const CODE_BODY: &'static str =
    r#"(?is)<ac:plain-text-body>\s*<!\[CDATA\[(.*?)\]\]>\s*</ac:plain-text-body>"#;

/// The HTML of a code block.
pub open spec fn code_html(language: Seq<char>, code: Seq<char>) -> Seq<char> {
    let class = if language.len() == 0 {
        ""@
    } else {
        " class=\"language-"@ + escaped(language) + "\""@
    };
    "<pre><code"@ + class + ">"@ + escaped(code) + "</code></pre>"@
}

/// The HTML of a code block; without a class where no language is given.
pub fn render_code_block(language: &str, code: &str) -> (r: String)
    ensures
        r@ == code_html(language@, code@),
{
    let mut class: String = String::new();
    if chars_of(language).len() > 0 {
        class = " class=\"language-".to_owned();
        class.append(&escape_html(language));
        class.append("\"");
    } else {
        proof {
            reveal_strlit("");
            assert(class@ =~= ""@);
        }
    }
    let mut out: String = "<pre><code".to_owned();
    out.append(&class);
    out.append(">");
    out.append(&escape_html(code));
    out.append("</code></pre>");
    out
}

/// The HTML of a code macro.
pub open spec fn code_macro_html(block: Seq<char>) -> Seq<char> {
    code_html(
        or_empty(first_stripped(CODE_LANGUAGE@, block, 1)),
        trimmed(or_empty(first_group(CODE_BODY@, block, 1)), white()),
    )
}

/// What replaces a code macro.
pub open spec fn code_rewriting() -> spec_fn(Seq<char>, Seq<Option<Span>>) -> Seq<char> {
    |t: Seq<char>, m: Seq<Option<Span>>| code_macro_html(whole_text(t, m))
}

fn code_macro(block: &str) -> (r: String)
    ensures
        r@ == code_macro_html(block@),
{
    let language = match first_stripped_of(CODE_LANGUAGE, block, 1) {
        Some(g) => g,
        None => String::new(),
    };
    let code = match first_group_of(CODE_BODY, block, 1) {
        Some(g) => g,
        None => String::new(),
    };
    render_code_block(&language, &trim(&code))
}

/// Replaces `code` macros by `<pre><code>` blocks.
pub fn replace_code_macros(html: &str) -> (r: String)
    ensures
        r@ == rewritten(CODE_MACRO@, html@, code_rewriting()),
{
    let f = |t: &[char], m: &Found| -> (r: String)
        requires
            fits(t@.len(), m@),
        ensures
            r@ == code_rewriting()(t@, m@),
        { code_macro(&m.whole(t)) };
    rewrite(CODE_MACRO, html, f, Ghost(code_rewriting()))
}

// ── Expand macros ──────────────────────────────────────────────────

/// The pattern of the name of an expand macro.
pub const EXPAND_NAME: &'static str = r#"(?i)\bac:name="expand""#;

/// The pattern of the title parameter of an expand macro.
pub const EXPAND_TITLE: &'static str =
    r#"(?is)<ac:parameter\b[^>]*ac:name="title"[^>]*>(.*?)</ac:parameter>"#;

/// The start of the opening tag of a macro.
pub const MACRO_OPEN: &'static str = "<ac:structured-macro";

/// The closing tag of a macro.
pub const MACRO_CLOSE: &'static str = "</ac:structured-macro>";

/// The opening tag of a rich-text body.
pub const BODY_OPEN: &'static str = "<ac:rich-text-body>";

/// The closing tag of a rich-text body.
pub const BODY_CLOSE: &'static str = "</ac:rich-text-body>";

/// The first `>` at or after `i` that does not stand inside double quotes.
pub open spec fn tag_close(t: Seq<char>, i: int, quoted: bool) -> Option<int>
    decreases t.len() - i,
{
    if i < 0 || i >= t.len() {
        None
    } else if !quoted && t[i] == '>' {
        Some(i)
    } else {
        tag_close(
            t,
            i + 1,
            if t[i] == '"' {
                !quoted
            } else {
                quoted
            },
        )
    }
}

/// The position behind the closing tag of the outermost of `depth` open
/// macros, searched from `i` on. A self-closing macro
/// opens nothing; an opening tag that never ends leaves all macros open.
pub open spec fn macro_close(t: Seq<char>, i: int, depth: int) -> Option<int>
    decreases t.len() - i,
{
    match index_from(t, MACRO_CLOSE@, i) {
        None => None,
        Some(close) => {
            let open = index_from(t, MACRO_OPEN@, i);
            if open is Some && open->0 < close {
                match tag_close(t, open->0 + MACRO_OPEN@.len(), false) {
                    Some(e) => if i <= e < t.len() {
                        macro_close(
                            t,
                            e + 1,
                            if t[e - 1] == '/' {
                                depth
                            } else {
                                depth + 1
                            },
                        )
                    } else {
                        None
                    },
                    None => None,
                }
            } else if depth <= 1 {
                Some(close + MACRO_CLOSE@.len() as int)
            } else if i < close + MACRO_CLOSE@.len() <= t.len() {
                macro_close(t, close + MACRO_CLOSE@.len(), depth - 1)
            } else {
                None
            }
        },
    }
}

/// The rich-text body of a macro: from behind its first opening tag to its
/// last closing tag.
pub open spec fn rich_body(block: Seq<char>) -> Seq<char> {
    match (index_from(block, BODY_OPEN@, 0), last_index(block, BODY_CLOSE@)) {
        (Some(a), Some(b)) => if b >= a + BODY_OPEN@.len() {
            block.subrange(a + BODY_OPEN@.len(), b)
        } else {
            Seq::empty()
        },
        _ => Seq::empty(),
    }
}

/// A rich-text body is shorter than the macro that holds it.
proof fn lemma_rich_body(block: Seq<char>)
    ensures
        rich_body(block).len() <= block.len(),
        block.len() > 0 ==> rich_body(block).len() < block.len(),
{
    reveal_strlit("<ac:rich-text-body>");
    lemma_index_from(block, BODY_OPEN@, 0);
    lemma_last_index_from(block, BODY_CLOSE@, block.len() - BODY_CLOSE@.len());
}

/// The HTML of an expand macro with a title. The expand macros in its body
/// are rewritten too.
pub open spec fn expand_html(title: Seq<char>, block: Seq<char>) -> Seq<char>
    decreases block.len(), 0nat, 0int,
    when true
    via expand_html_decreases
{
    "<details><summary>"@ + title + "</summary>"@ + (if block.len() == 0 {
        Seq::empty()
    } else {
        expanded_from(rich_body(block), 0)
    }) + "</details>"@
}

#[via_fn]
proof fn expand_html_decreases(title: Seq<char>, block: Seq<char>) {
    lemma_rich_body(block);
}

/// Whether an opening tag is that of an expand macro.
pub open spec fn is_expand(tag: Seq<char>) -> bool {
    first_match(EXPAND_NAME@, tag) is Some
}

/// `t` from `i` on, with its expand macros rewritten.
pub open spec fn expanded_from(t: Seq<char>, i: int) -> Seq<char>
    decreases t.len(), 1nat, t.len() - i,
{
    let open = index_from(t, MACRO_OPEN@, i);
    if open is None {
        t.subrange(i, t.len() as int)
    } else {
        let m = open->0;
        match tag_close(t, m + MACRO_OPEN@.len(), false) {
            None => t.subrange(i, t.len() as int),
            Some(e) => if !(i <= m < e < t.len()) {
                Seq::empty()
            } else if !is_expand(t.subrange(m, e + 1)) {
                t.subrange(i, e + 1) + expanded_from(t, e + 1)
            } else if t[e - 1] == '/' {
                t.subrange(i, m) + "<details><summary></summary></details>"@ + expanded_from(
                    t,
                    e + 1,
                )
            } else {
                match macro_close(t, e + 1, 1) {
                    None => t.subrange(i, e + 1) + expanded_from(t, e + 1),
                    Some(end) => if e < end <= t.len() {
                        t.subrange(i, m) + expand_html(
                            or_empty(first_stripped(EXPAND_TITLE@, t.subrange(m, end), 1)),
                            t.subrange(m, end),
                        ) + expanded_from(t, end)
                    } else {
                        Seq::empty()
                    },
                }
            },
        }
    }
}

/// A text with its expand macros rewritten.
pub open spec fn expanded(t: Seq<char>) -> Seq<char> {
    expanded_from(t, 0)
}

pub proof fn lemma_tag_close(t: Seq<char>, i: int, quoted: bool)
    requires
        0 <= i,
    ensures
        tag_close(t, i, quoted) matches Some(e) ==> i <= e < t.len() && t[e] == '>',
    decreases t.len() - i,
{
    if i < t.len() && (quoted || t[i] != '>') {
        lemma_tag_close(
            t,
            i + 1,
            if t[i] == '"' {
                !quoted
            } else {
                quoted
            },
        );
    }
}

pub proof fn lemma_macro_close(t: Seq<char>, i: int, depth: int)
    requires
        0 <= i,
    ensures
        macro_close(t, i, depth) matches Some(e) ==> i < e <= t.len(),
    decreases t.len() - i,
{
    reveal_strlit("<ac:structured-macro");
    reveal_strlit("</ac:structured-macro>");
    lemma_index_from(t, MACRO_CLOSE@, i);
    lemma_index_from(t, MACRO_OPEN@, i);
    if let Some(close) = index_from(t, MACRO_CLOSE@, i) {
        let open = index_from(t, MACRO_OPEN@, i);
        if open is Some && open->0 < close {
            lemma_tag_close(t, open->0 + MACRO_OPEN@.len(), false);
            if let Some(e) = tag_close(t, open->0 + MACRO_OPEN@.len(), false) {
                lemma_macro_close(
                    t,
                    e + 1,
                    if t[e - 1] == '/' {
                        depth
                    } else {
                        depth + 1
                    },
                );
            }
        } else if depth > 1 {
            lemma_macro_close(t, close + MACRO_CLOSE@.len(), depth - 1);
        }
    }
}

/// The first `>` at or after `from` that does not stand inside double quotes.
fn find_tag_close(t: &[char], from: usize) -> (r: Option<usize>)
    requires
        from <= t.len(),
    ensures
        match r {
            Some(e) => tag_close(t@, from as int, false) == Some(e as int) && from <= e < t.len(),
            None => tag_close(t@, from as int, false) is None,
        },
{
    let mut i: usize = from;
    let mut quoted: bool = false;
    while i < t.len() && (quoted || t[i] != '>')
        invariant
            from <= i <= t.len(),
            tag_close(t@, from as int, false) == tag_close(t@, i as int, quoted),
        decreases t.len() - i,
    {
        if t[i] == '"' {
            quoted = !quoted;
        }
        i += 1;
    }
    if i < t.len() {
        Some(i)
    } else {
        None
    }
}

/// The position behind the closing tag of the macro whose opening tag ends
/// before `from`. Macros nested in it are matched with their own closing
/// tags.
pub fn find_macro_close(t: &[char], from: usize) -> (r: Option<usize>)
    requires
        from <= t.len(),
    ensures
        match r {
            Some(e) => macro_close(t@, from as int, 1) == Some(e as int) && from < e <= t.len(),
            None => macro_close(t@, from as int, 1) is None,
        },
{
    proof {
        reveal_strlit("<ac:structured-macro");
        reveal_strlit("</ac:structured-macro>");
        lemma_macro_close(t@, from as int, 1);
    }
    let mut depth: usize = 1;
    let mut i: usize = from;
    loop
        invariant
            from <= i <= t.len(),
            1 <= depth <= i - from + 1,
            macro_close(t@, from as int, 1) == macro_close(t@, i as int, depth as int),
            macro_close(t@, from as int, 1) matches Some(e) ==> from < e <= t.len(),
            MACRO_OPEN@.len() == 20,
            MACRO_CLOSE@.len() == 22,
        decreases t.len() - i,
    {
        proof {
            lemma_index_from(t@, MACRO_CLOSE@, i as int);
            lemma_index_from(t@, MACRO_OPEN@, i as int);
        }
        let close = match find_from(t, MACRO_CLOSE, i) {
            Some(c) => c,
            None => {
                return None;
            },
        };
        let open: usize = match find_from(t, MACRO_OPEN, i) {
            Some(o) => o,
            None => close,
        };
        if open < close {
            match find_tag_close(t, open + 20) {
                Some(e) => {
                    if t[e - 1] != '/' {
                        depth += 1;
                    }
                    i = e + 1;
                },
                None => {
                    return None;
                },
            }
        } else {
            if depth == 1 {
                return Some(close + 22);
            }
            depth -= 1;
            i = close + 22;
        }
    }
}

/// The rich-text body of a macro.
fn find_rich_body(block: &str) -> (r: String)
    ensures
        r@ == rich_body(block@),
{
    let t = chars_of(block);
    proof {
        reveal_strlit("<ac:rich-text-body>");
        lemma_index_from(t@, BODY_OPEN@, 0);
        assert(BODY_OPEN@.len() == 19);
    }
    if let (Some(a), Some(b)) = (find_from(&t, BODY_OPEN, 0), find_last(&t, BODY_CLOSE)) {
        if b >= a + 19 {
            return part(&t, a + 19, b);
        }
    }
    String::new()
}

/// The HTML of an expand macro with the given title; the body is taken from
/// the macro block, and the expand macros in it are rewritten too.
pub fn render_expand(title: &str, block: &str) -> (r: String)
    ensures
        r@ == expand_html(title@, block@),
    decreases block@.len(), 0nat,
{
    let body = find_rich_body(block);
    proof {
        lemma_rich_body(block@);
    }
    let mut out: String = "<details><summary>".to_owned();
    out.append(title);
    out.append("</summary>");
    if chars_of(block).len() > 0 {
        out.append(&replace_expand_macros(&body));
    } else {
        assert(out@ =~= out@ + Seq::<char>::empty());
    }
    out.append("</details>");
    out
}

/// Replaces `expand` macros by `<details>`/`<summary>` HTML, also those in the
/// body of another. Other macros stay inside the body that holds them.
pub fn replace_expand_macros(html: &str) -> (r: String)
    ensures
        r@ == expanded(html@),
    decreases html@.len(), 1nat,
{
    let t = chars_of(html);
    let mut out: String = String::new();
    let mut i: usize = 0;
    proof {
        reveal_strlit("<ac:structured-macro");
        assert(out@ + expanded_from(t@, 0) =~= expanded(t@));
    }
    loop
        invariant
            t@ == html@,
            i <= t.len(),
            MACRO_OPEN@.len() == 20,
            out@ + expanded_from(t@, i as int) == expanded(t@),
        decreases t.len() - i,
    {
        let ghost before = out@;
        let ghost rest = expanded_from(t@, i as int);
        proof {
            lemma_index_from(t@, MACRO_OPEN@, i as int);
        }
        let m = match find_from(&t, MACRO_OPEN, i) {
            Some(m) => m,
            None => {
                push_part(&mut out, &t, i, t.len());
                return out;
            },
        };
        let e = match find_tag_close(&t, m + 20) {
            Some(e) => e,
            None => {
                push_part(&mut out, &t, i, t.len());
                return out;
            },
        };
        let tag = part(&t, m, e + 1);
        if !is_match(EXPAND_NAME, &tag) {
            push_part(&mut out, &t, i, e + 1);
            i = e + 1;
        } else if t[e - 1] == '/' {
            push_part(&mut out, &t, i, m);
            out.append("<details><summary></summary></details>");
            i = e + 1;
        } else {
            match find_macro_close(&t, e + 1) {
                Some(end) => {
                    let block = part(&t, m, end);
                    let title = match first_stripped_of(EXPAND_TITLE, &block, 1) {
                        Some(g) => g,
                        None => String::new(),
                    };
                    push_part(&mut out, &t, i, m);
                    out.append(&render_expand(&title, &block));
                    i = end;
                },
                None => {
                    push_part(&mut out, &t, i, e + 1);
                    i = e + 1;
                },
            }
        }
        assert(out@ + expanded_from(t@, i as int) =~= before + rest);
    }
}

/// A text without macros is left as it is.
pub proof fn law_expand_leaves_plain_html(t: Seq<char>)
    requires
        !occurs_in(t, MACRO_OPEN@),
    ensures
        expanded(t) == t,
{
    assert(expanded(t) =~= t);
}

// ── Google Drive links ─────────────────────────────────────────────

/// The text of every link to a Google Drive file.
pub const GDRIVE_LINK_TEXT: &'static str = "Google Drive Link";

/// The pattern of a Google Drive macro.
pub const GDRIVE_MACRO: &'static str =
    r#"(?is)<ac:structured-macro\b[^>]*\bac:name="lref-gdrive-file".*?</ac:structured-macro>"#;

/// The pattern of the rendered placeholder of a Google Drive macro.
pub const GDRIVE_RENDERED: &'static str =
    r#"(?is)(?:<span\b[^>]*\bclass="[^"]*\bap-container\b[^"]*"[^>]*>\s*)?<span\b[^>]*\bdata-module-key="lref-gdrive-file"[^>]*>\s*</span>(?:\s*</span>)?"#;

/// The pattern of the context data of a placeholder.
pub const GDRIVE_CONTEXT: &'static str = r#"(?i)data-context="([^"]*)""#;

/// Whether a position stands inside an anchor: the last `<a ` before it is
/// not followed by a `</a>` before it.
pub open spec fn inside_anchor(t: Seq<char>, at: int) -> bool {
    let before = t.take(at);
    match last_index(before, "<a "@) {
        Some(open) => match last_index(before, "</a>"@) {
            Some(close) => open > close,
            None => true,
        },
        None => false,
    }
}

/// Whether a position stands inside an anchor.
pub fn is_inside_anchor(full: &[char], offset: usize) -> (r: bool)
    requires
        offset <= full.len(),
    ensures
        r == inside_anchor(full@, offset as int),
{
    let before = part(full, 0, offset);
    let before = chars_of(&before);
    assert(before@ =~= full@.take(offset as int));
    match find_last(&before, "<a ") {
        Some(open) => match find_last(&before, "</a>") {
            Some(close) => open > close,
            None => true,
        },
        None => false,
    }
}

/// The link to a Google Drive file; only its text where a link cannot stand
/// or none is known.
pub open spec fn gdrive_html(url: Seq<char>, in_anchor: bool) -> Seq<char> {
    if in_anchor || url.len() == 0 {
        GDRIVE_LINK_TEXT@
    } else {
        "<a href=\""@ + escaped(url) + "\">"@ + GDRIVE_LINK_TEXT@ + "</a>"@
    }
}

/// The link to a Google Drive file; only its text where a link cannot stand
/// or none is known.
pub fn render_gdrive_link(url: &str, in_anchor: bool) -> (r: String)
    ensures
        r@ == gdrive_html(url@, in_anchor),
{
    if in_anchor || chars_of(url).len() == 0 {
        return GDRIVE_LINK_TEXT.to_owned();
    }
    let mut out: String = "<a href=\"".to_owned();
    out.append(&escape_html(url));
    out.append("\">");
    out.append(GDRIVE_LINK_TEXT);
    out.append("</a>");
    out
}

/// What replaces a storage-format macro; nothing where it names no address.
pub open spec fn gdrive_macro_rewriting() -> spec_fn(Seq<char>, Seq<Option<Span>>) -> Seq<char> {
    |t: Seq<char>, m: Seq<Option<Span>>|
        {
            let url = or_empty(macro_param(whole_text(t, m), "url"@));
            if url.len() == 0 {
                Seq::empty()
            } else {
                gdrive_html(url, inside_anchor(t, whole_span(m).start as int))
            }
        }
}

/// The `url` member of a JSON document, where it is a text.
pub open spec fn url_member(text: Seq<char>) -> Seq<char> {
    match json_read(text) {
        Some(v) => or_empty(v.get_text("url"@)),
        None => Seq::empty(),
    }
}

/// The address that a rendered placeholder carries in its context data.
pub open spec fn context_url(chunk: Seq<char>) -> Seq<char> {
    match first_group(GDRIVE_CONTEXT@, chunk, 1) {
        Some(g) => url_member(attribute_decoded(g)),
        None => Seq::empty(),
    }
}

fn find_context_url(chunk: &str) -> (r: String)
    ensures
        r@ == context_url(chunk@),
{
    match first_group_of(GDRIVE_CONTEXT, chunk, 1) {
        Some(g) => match parse_json(&decode_html_attribute(&g)) {
            Some(v) => match v.get_text("url") {
                Some(u) => u.clone(),
                None => String::new(),
            },
            None => String::new(),
        },
        None => String::new(),
    }
}

/// What replaces a rendered placeholder.
pub open spec fn gdrive_rendered_rewriting() -> spec_fn(Seq<char>, Seq<Option<Span>>) -> Seq<char> {
    |t: Seq<char>, m: Seq<Option<Span>>|
        gdrive_html(
            context_url(whole_text(t, m)),
            inside_anchor(t, whole_span(m).start as int),
        )
}

/// A text with its Google Drive macros rewritten, then its rendered
/// placeholders.
pub open spec fn gdrive_linked(t: Seq<char>) -> Seq<char> {
    rewritten(
        GDRIVE_RENDERED@,
        rewritten(GDRIVE_MACRO@, t, gdrive_macro_rewriting()),
        gdrive_rendered_rewriting(),
    )
}

/// Replaces Google Drive macros and their rendered placeholders by links.
pub fn replace_lref_gdrive_macros(html: &str) -> (r: String)
    ensures
        r@ == gdrive_linked(html@),
{
    let stored = |t: &[char], m: &Found| -> (r: String)
        requires
            fits(t@.len(), m@),
        ensures
            r@ == gdrive_macro_rewriting()(t@, m@),
        {
            let url = match extract_macro_param(&m.whole(t), "url") {
                Some(u) => u,
                None => String::new(),
            };
            if chars_of(&url).len() == 0 {
                String::new()
            } else {
                render_gdrive_link(&url, is_inside_anchor(t, m.span().start))
            }
        };
    let rendered = |t: &[char], m: &Found| -> (r: String)
        requires
            fits(t@.len(), m@),
        ensures
            r@ == gdrive_rendered_rewriting()(t@, m@),
        {
            let url = find_context_url(&m.whole(t));
            render_gdrive_link(&url, is_inside_anchor(t, m.span().start))
        };
    let html = rewrite(GDRIVE_MACRO, html, stored, Ghost(gdrive_macro_rewriting()));
    rewrite(GDRIVE_RENDERED, &html, rendered, Ghost(gdrive_rendered_rewriting()))
}

// ── Task lists ─────────────────────────────────────────────────────

/// The pattern of a task in storage HTML.
pub const TASK: &'static str = r"(?is)<ac:task>.*?</ac:task>";

/// The pattern of a task's identifier.
pub const TASK_ID: &'static str = r"(?is)<ac:task-id>\s*(.*?)\s*</ac:task-id>";

/// The pattern of a task's status.
pub const TASK_STATUS: &'static str =
    r"(?is)<ac:task-status>\s*(complete|incomplete)\s*</ac:task-status>";

/// The pattern of the opening tag of a task's list item: the attributes before
/// the identifier, the identifier, the attributes behind it.
pub const TASK_ITEM_OPEN: &'static str =
    r#"(?is)<li\b([^>]*)\bdata-inline-task-id="([^"]+)"([^>]*)>"#;

/// The pattern of a task's list item: as its opening tag, then its content.
pub const TASK_ITEM: &'static str =
    r#"(?is)<li\b([^>]*)\bdata-inline-task-id="([^"]+)"([^>]*)>(.*?)</li>"#;

/// The pattern of the status of a finished task.
pub const ITEM_STATUS: &'static str = r#"(?i)data-task-status\s*=\s*"complete""#;

/// The pattern of a class list.
pub const ITEM_CLASS: &'static str = r#"(?i)class\s*=\s*"([^"]*)""#;

/// The pattern of a check box that is set.
pub const ITEM_ARIA: &'static str = r#"(?i)aria-checked\s*=\s*"true""#;

/// The identifier and the status of the first `n` tasks; a later task with
/// the same identifier wins, one without identifier or status is passed over.
pub open spec fn statuses_of(tasks: Seq<Seq<char>>, n: int) -> Map<Seq<char>, Seq<char>>
    decreases n,
{
    if n <= 0 {
        Map::empty()
    } else {
        let before = statuses_of(tasks, n - 1);
        match (
            first_stripped(TASK_ID@, tasks[n - 1], 1),
            first_group(TASK_STATUS@, tasks[n - 1], 1),
        ) {
            (Some(id), Some(status)) => before.insert(id, lower(status)),
            _ => before,
        }
    }
}

/// The statuses of all tasks in storage HTML, by identifier.
pub open spec fn task_statuses(storage: Seq<char>) -> Map<Seq<char>, Seq<char>> {
    let tasks = all_texts(TASK@, storage);
    statuses_of(tasks, tasks.len() as int)
}

/// The statuses of all tasks in storage HTML, by identifier.
pub fn extract_task_statuses(storage_html: &str) -> (r: TextMap)
    ensures
        r@ == task_statuses(storage_html@),
{
    let tasks = matched_texts(TASK, storage_html);
    let ghost all = views(tasks@);
    let mut statuses = TextMap::new();
    let mut i: usize = 0;
    while i < tasks.len()
        invariant
            all == views(tasks@),
            i <= tasks.len(),
            statuses@ == statuses_of(all, i as int),
        decreases tasks.len() - i,
    {
        let id = first_stripped_of(TASK_ID, &tasks[i], 1);
        let status = first_group_of(TASK_STATUS, &tasks[i], 1);
        if let (Some(id), Some(status)) = (id, status) {
            statuses.insert(id, ascii_lower(&status));
        }
        i += 1;
    }
    statuses
}

/// The opening tag of a list item with its task's status added; unchanged
/// where it shows a status already or none is known.
pub open spec fn item_with_status(
    original: Seq<char>,
    before: Seq<char>,
    id: Seq<char>,
    after: Seq<char>,
    statuses: Map<Seq<char>, Seq<char>>,
) -> Seq<char> {
    if occurs_in(original, "data-task-status="@) || !statuses.contains_key(id) {
        original
    } else {
        "<li"@ + before + " data-inline-task-id=\""@ + id + "\""@ + after + " data-task-status=\""@
            + statuses[id] + "\">"@
    }
}

/// The opening tag of a list item with its task's status added.
pub fn add_task_status(
    original: String,
    before: &str,
    id: &str,
    after: &str,
    statuses: &TextMap,
) -> (r: String)
    ensures
        r@ == item_with_status(original@, before@, id@, after@, statuses@),
{
    if contains(&original, "data-task-status=") {
        return original;
    }
    match statuses.get(id) {
        Some(status) => {
            let mut out: String = "<li".to_owned();
            out.append(before);
            out.append(" data-inline-task-id=\"");
            out.append(id);
            out.append("\"");
            out.append(after);
            out.append(" data-task-status=\"");
            out.append(status);
            out.append("\">");
            out
        },
        None => original,
    }
}

/// What replaces the opening tag of a task's list item.
pub open spec fn status_rewriting(statuses: Map<Seq<char>, Seq<char>>) -> spec_fn(
    Seq<char>,
    Seq<Option<Span>>,
) -> Seq<char> {
    |t: Seq<char>, m: Seq<Option<Span>>|
        item_with_status(
            whole_text(t, m),
            group_text(t, m, 1),
            group_text(t, m, 2),
            group_text(t, m, 3),
            statuses,
        )
}

/// Rendered HTML with the task statuses of storage HTML added.
pub open spec fn with_task_statuses(rendered: Seq<char>, storage: Seq<char>) -> Seq<char> {
    if task_statuses(storage) == Map::<Seq<char>, Seq<char>>::empty() {
        rendered
    } else {
        rewritten(TASK_ITEM_OPEN@, rendered, status_rewriting(task_statuses(storage)))
    }
}

/// Copies the completion state of tasks from Confluence storage HTML onto the
/// task list items of rendered HTML.
pub fn apply_task_list_statuses(rendered_html: &str, storage_html: &str) -> (r: String)
    ensures
        r@ == with_task_statuses(rendered_html@, storage_html@),
{
    let statuses = extract_task_statuses(storage_html);
    if statuses.is_empty() {
        return rendered_html.to_owned();
    }
    let f = |t: &[char], m: &Found| -> (r: String)
        requires
            fits(t@.len(), m@),
        ensures
            r@ == status_rewriting(statuses@)(t@, m@),
        {
            add_task_status(
                m.whole(t),
                &m.group_text(t, 1),
                &m.group_text(t, 2),
                &m.group_text(t, 3),
                &statuses,
            )
        };
    rewrite(TASK_ITEM_OPEN, rendered_html, f, Ghost(status_rewriting(statuses@)))
}

/// Whether a class list names a finished task.
pub open spec fn names_finished(class: Seq<char>) -> bool {
    exists|i: int|
        0 <= i < words(class).len() && (lower(#[trigger] words(class)[i]) == "checked"@ || lower(
            words(class)[i],
        ) == "complete"@)
}

/// Whether a class list names a finished task.
pub fn class_is_finished(class: &str) -> (r: bool)
    ensures
        r == names_finished(class@),
{
    let names = split_words(class);
    let ghost all = words(class@);
    let mut i: usize = 0;
    while i < names.len()
        invariant
            all == words(class@),
            views(names@) == all,
            i <= names.len(),
            forall|k: int|
                0 <= k < i ==> lower(#[trigger] all[k]) != "checked"@ && lower(all[k])
                    != "complete"@,
        decreases names.len() - i,
    {
        assert(all[i as int] == names[i as int]@);
        let name = ascii_lower(&names[i]);
        if same_text(&name, "checked") || same_text(&name, "complete") {
            return true;
        }
        i += 1;
    }
    false
}

/// Whether the attributes of a list item show a finished task.
pub open spec fn item_is_checked(attrs: Seq<char>) -> bool {
    ||| first_match(ITEM_STATUS@, attrs) is Some
    ||| first_match(ITEM_ARIA@, attrs) is Some
    ||| (first_group(ITEM_CLASS@, attrs, 1) matches Some(class) && names_finished(class))
}

/// Whether the attributes of a list item show a finished task.
pub fn task_item_is_checked(attrs: &str) -> (r: bool)
    ensures
        r == item_is_checked(attrs@),
{
    if is_match(ITEM_STATUS, attrs) || is_match(ITEM_ARIA, attrs) {
        return true;
    }
    match first_group_of(ITEM_CLASS, attrs, 1) {
        Some(class) => class_is_finished(&class),
        None => false,
    }
}

/// Whether a list item shows no text.
pub open spec fn is_blank(body: Seq<char>) -> bool {
    trimmed(replaced(stripped(body), "&nbsp;"@, ""@), white()).len() == 0
}

/// A list item with its check box.
pub open spec fn task_item_html(attrs: Seq<char>, checked: bool, body: Seq<char>) -> Seq<char> {
    let marker = if checked {
        "[x]"@
    } else {
        "[ ]"@
    };
    let content = if is_blank(body) {
        marker
    } else {
        marker + " "@ + body
    };
    "<li"@ + attrs + ">"@ + content + "</li>"@
}

/// A list item with its check box.
pub fn render_task_item(attrs: &str, checked: bool, body: &str) -> (r: String)
    ensures
        r@ == task_item_html(attrs@, checked, body@),
{
    proof {
        reveal_strlit("&nbsp;");
    }
    let mut content: String = if checked {
        "[x]".to_owned()
    } else {
        "[ ]".to_owned()
    };
    let plain = replace(&strip_tags(body), "&nbsp;", "");
    if chars_of(&trim(&plain)).len() > 0 {
        content.append(" ");
        content.append(body);
    }
    let mut out: String = "<li".to_owned();
    out.append(attrs);
    out.append(">");
    out.append(&content);
    out.append("</li>");
    out
}

/// The attributes that a task's list item keeps.
pub open spec fn item_attributes(before: Seq<char>, id: Seq<char>, after: Seq<char>) -> Seq<char> {
    trimmed_end(before, white()) + " data-inline-task-id=\""@ + id + "\""@ + after
}

/// What replaces a task's list item.
pub open spec fn item_rewriting() -> spec_fn(Seq<char>, Seq<Option<Span>>) -> Seq<char> {
    |t: Seq<char>, m: Seq<Option<Span>>|
        {
            let attrs = item_attributes(
                group_text(t, m, 1),
                group_text(t, m, 2),
                group_text(t, m, 3),
            );
            task_item_html(
                attrs,
                item_is_checked(attrs),
                trimmed(group_text(t, m, 4), white()),
            )
        }
}

/// Puts a check box into every task's list item.
pub fn replace_task_list_items(html: &str) -> (r: String)
    ensures
        r@ == rewritten(TASK_ITEM@, html@, item_rewriting()),
{
    let f = |t: &[char], m: &Found| -> (r: String)
        requires
            fits(t@.len(), m@),
        ensures
            r@ == item_rewriting()(t@, m@),
        {
            let mut attrs: String = trim_end(&m.group_text(t, 1));
            attrs.append(" data-inline-task-id=\"");
            attrs.append(&m.group_text(t, 2));
            attrs.append("\"");
            attrs.append(&m.group_text(t, 3));
            let checked = task_item_is_checked(&attrs);
            render_task_item(&attrs, checked, &trim(&m.group_text(t, 4)))
        };
    rewrite(TASK_ITEM, html, f, Ghost(item_rewriting()))
}

// ── Alert macros ───────────────────────────────────────────────────

/// The pattern of an alert macro: its name.
pub const ALERT_MACRO: &'static str =
    r#"(?is)<ac:structured-macro\b[^>]*\bac:name="(info|panel|tip|note|warning)".*?</ac:structured-macro>"#;

/// The pattern of the rich-text body of an alert.
pub const ALERT_BODY: &'static str = r#"(?is)<ac:rich-text-body>(.*?)</ac:rich-text-body>"#;

/// The class of an alert macro.
pub open spec fn alert_class(name: Seq<char>) -> Seq<char> {
    if name == "panel"@ {
        "confluence-information-macro-panel"@
    } else if name == "tip"@ {
        "confluence-information-macro-tip"@
    } else if name == "note"@ {
        "confluence-information-macro-note"@
    } else if name == "warning"@ {
        "confluence-information-macro-warning"@
    } else {
        "confluence-information-macro-information"@
    }
}

/// The HTML of an alert.
pub open spec fn alert_html(name: Seq<char>, body: Seq<char>) -> Seq<char> {
    "<div class=\"confluence-information-macro "@ + alert_class(lower(name))
        + "\"><div class=\"confluence-information-macro-body\">"@ + body + "</div></div>"@
}

/// The HTML of an alert; the name counts in any letter case.
pub fn render_alert_html(name: &str, body: &str) -> (r: String)
    ensures
        r@ == alert_html(name@, body@),
{
    let name = ascii_lower(name);
    let class = if same_text(&name, "panel") {
        "confluence-information-macro-panel"
    } else if same_text(&name, "tip") {
        "confluence-information-macro-tip"
    } else if same_text(&name, "note") {
        "confluence-information-macro-note"
    } else if same_text(&name, "warning") {
        "confluence-information-macro-warning"
    } else {
        "confluence-information-macro-information"
    };
    let mut out: String = "<div class=\"confluence-information-macro ".to_owned();
    out.append(class);
    out.append("\"><div class=\"confluence-information-macro-body\">");
    out.append(body);
    out.append("</div></div>");
    out
}

/// What replaces an alert macro.
pub open spec fn alert_rewriting() -> spec_fn(Seq<char>, Seq<Option<Span>>) -> Seq<char> {
    |t: Seq<char>, m: Seq<Option<Span>>|
        alert_html(
            group_text(t, m, 1),
            or_empty(first_group(ALERT_BODY@, whole_text(t, m), 1)),
        )
}

/// Replaces alert macros by the HTML of rendered alerts.
pub fn replace_alert_macros(html: &str) -> (r: String)
    ensures
        r@ == rewritten(ALERT_MACRO@, html@, alert_rewriting()),
{
    let f = |t: &[char], m: &Found| -> (r: String)
        requires
            fits(t@.len(), m@),
        ensures
            r@ == alert_rewriting()(t@, m@),
        {
            let body = match first_group_of(ALERT_BODY, &m.whole(t), 1) {
                Some(b) => b,
                None => String::new(),
            };
            render_alert_html(&m.group_text(t, 1), &body)
        };
    rewrite(ALERT_MACRO, html, f, Ghost(alert_rewriting()))
}

// ── All macros ─────────────────────────────────────────────────────

/// A text with all its macros rewritten, one kind after the other.
pub open spec fn preprocessed(t: Seq<char>) -> Seq<char> {
    let t = rewritten(CODE_MACRO@, t, code_rewriting());
    let t = expanded(t);
    let t = issues_linked(t);
    let t = gdrive_linked(t);
    let t = rewritten(TASK_ITEM@, t, item_rewriting());
    rewritten(ALERT_MACRO@, t, alert_rewriting())
}

/// Rewrites Confluence storage-format macros (`code`, `expand`, `jira`,
/// `lref-gdrive-file`, task lists, alerts) into plain HTML elements that the
/// Markdown converter knows how to handle.
pub fn preprocess_confluence_macros(html: &str) -> (r: String)
    ensures
        r@ == preprocessed(html@),
{
    let html = replace_code_macros(html);
    let html = replace_expand_macros(&html);
    let html = replace_jira_macros(&html);
    let html = replace_lref_gdrive_macros(&html);
    let html = replace_task_list_items(&html);
    replace_alert_macros(&html)
}

/// HTML without any of the macros, issues, placeholders and task items that
/// are rewritten is left as it is.
pub proof fn law_other_html_is_kept(t: Seq<char>)
    requires
        all_matches(CODE_MACRO@, t).len() == 0,
        !occurs_in(t, MACRO_OPEN@),
        all_matches(JIRA_MACRO@, t).len() == 0,
        first_match(ISSUE_SPAN_OPEN@, t) is None,
        all_matches(GDRIVE_MACRO@, t).len() == 0,
        all_matches(GDRIVE_RENDERED@, t).len() == 0,
        all_matches(TASK_ITEM@, t).len() == 0,
        all_matches(ALERT_MACRO@, t).len() == 0,
    ensures
        preprocessed(t) == t,
{
    law_rewriting_nothing(CODE_MACRO@, t, code_rewriting());
    law_expand_leaves_plain_html(t);
    law_jira_leaves_other_html(t);
    law_rewriting_nothing(GDRIVE_MACRO@, t, gdrive_macro_rewriting());
    law_rewriting_nothing(GDRIVE_RENDERED@, t, gdrive_rendered_rewriting());
    law_rewriting_nothing(TASK_ITEM@, t, item_rewriting());
    law_rewriting_nothing(ALERT_MACRO@, t, alert_rewriting());
}

} // verus!
