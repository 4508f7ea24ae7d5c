//! What becomes of macros and tasks, wherever they stand on a page.

use vstd::prelude::*;

use crate::export_html::woven_from;
use crate::export_laws::{inks, lemma_inks_of_trimmed, lemma_nothing_replaced};
use crate::html_laws::{code_events, law_code_block_reads_back, lemma_names};
use crate::jira::{
    issue_link, issue_rewriting, issues_linked, law_jira_leaves_other_html, ISSUE_SPAN_OPEN,
    JIRA_MACRO,
};
use crate::macros::{
    alert_class, alert_html, alert_rewriting, code_macro_html, code_rewriting, context_url,
    expand_html, expanded, expanded_from, first_stripped, gdrive_html, gdrive_linked,
    gdrive_macro_rewriting, gdrive_rendered_rewriting, inside_anchor, is_blank, is_expand,
    item_is_checked, item_rewriting, item_with_status, law_expand_leaves_plain_html,
    lemma_macro_close, lemma_tag_close, macro_close, macro_param, preprocessed, rich_body,
    status_rewriting, statuses_of, tag_close, task_item_html, task_statuses, with_task_statuses,
    ALERT_BODY, ALERT_MACRO, BODY_CLOSE, BODY_OPEN, CODE_BODY, CODE_LANGUAGE, CODE_MACRO,
    EXPAND_TITLE, GDRIVE_MACRO, GDRIVE_RENDERED, ITEM_ARIA, ITEM_CLASS, ITEM_STATUS, MACRO_CLOSE,
    MACRO_OPEN, TASK_ID, TASK_ITEM, TASK_ITEM_OPEN, TASK_STATUS,
};
use crate::pattern::{
    all_matches, first_group, first_match, group_text, law_rewriting_nothing,
    law_rewriting_replaces_every_match, parts_between, rewritten, well_placed, whole_span,
    whole_spans, whole_text,
};
use crate::reading::{
    html_read, is_name, lemma_close_read, lemma_end_read, lemma_open_with_read,
    lemma_plain_open_read, opened, opened_with, HtmlEvent,
};
use crate::text::{
    index_from, last_index, lemma_index_from, lemma_index_shift, lemma_last_index_from, lemma_skip,
    lemma_skip_back, lower, moved, occurs_at, occurs_in, or_empty, skip_back, trimmed, trimmed_end,
    white, words,
};
use crate::utils::{escaped, law_escape_keeps_plain_text, stripped};

verus! {

/// Whether HTML is a text between tags: what reads as `opens` before it, and
/// what reads as `closes` behind it.
pub open spec fn holds_between(
    html: Seq<char>,
    opens: Seq<HtmlEvent>,
    text: Seq<char>,
    closes: Seq<HtmlEvent>,
) -> bool {
    exists|head: Seq<char>, tail: Seq<char>|
        html == #[trigger] (head + text + tail) && html_read(head) == opens && html_read(tail)
            == closes
}

// ── Alerts ─────────────────────────────────────────────────────────

/// The word for an alert macro in the class of its alert: the macro's own
/// name, and `information` for any other.
pub open spec fn alert_word(name: Seq<char>) -> Seq<char> {
    if name == "panel"@ || name == "tip"@ || name == "note"@ || name == "warning"@ {
        name
    } else {
        "information"@
    }
}

proof fn lemma_alert_class(name: Seq<char>)
    ensures
        alert_class(name) == "confluence-information-macro-"@ + alert_word(name),
        !alert_class(name).contains('&'),
        !alert_class(name).contains('<'),
        !alert_class(name).contains('>'),
        !alert_class(name).contains('"'),
{
    reveal_strlit("confluence-information-macro-");
    reveal_strlit("confluence-information-macro-panel");
    reveal_strlit("confluence-information-macro-tip");
    reveal_strlit("confluence-information-macro-note");
    reveal_strlit("confluence-information-macro-warning");
    reveal_strlit("confluence-information-macro-information");
    reveal_strlit("panel");
    reveal_strlit("tip");
    reveal_strlit("note");
    reveal_strlit("warning");
    reveal_strlit("information");
    assert(alert_class(name) =~= "confluence-information-macro-"@ + alert_word(name));
}

proof fn lemma_alert_head(class: Seq<char>)
    requires
        !class.contains('&'),
        !class.contains('<'),
        !class.contains('>'),
        !class.contains('"'),
    ensures
        html_read(
            "<div class=\"confluence-information-macro "@ + class
                + "\"><div class=\"confluence-information-macro-body\">"@,
        ) == seq![
            opened_with("div"@, "class"@, "confluence-information-macro "@ + class),
            opened_with("div"@, "class"@, "confluence-information-macro-body"@),
        ],
{
    reveal_strlit("<div class=\"confluence-information-macro ");
    reveal_strlit("\"><div class=\"confluence-information-macro-body\">");
    reveal_strlit("confluence-information-macro ");
    reveal_strlit("confluence-information-macro-body");
    reveal_strlit("<");
    reveal_strlit("div");
    reveal_strlit(" ");
    reveal_strlit("class");
    reveal_strlit("=\"");
    reveal_strlit("\">");
    lemma_names();
    let none = Seq::<char>::empty();
    let outer = "confluence-information-macro "@ + class;
    let inner = "confluence-information-macro-body"@;
    assert forall|c: char| c == '&' || c == '<' || c == '>' || c == '"' implies !outer.contains(
        c,
    ) by {
        if outer.contains(c) {
            let i = choose|i: int| 0 <= i < outer.len() && outer[i] == c;
            if i >= 29 {
                assert(class[i - 29] == c);
                assert(class.contains(c));
            } else {
                assert("confluence-information-macro "@[i] == c);
            }
        }
    }
    law_escape_keeps_plain_text(outer);
    law_escape_keeps_plain_text(inner);
    let second = "<"@ + "div"@ + " "@ + "class"@ + "=\""@ + escaped(inner) + "\">"@ + none;
    lemma_open_with_read("div"@, "class"@, inner, none);
    lemma_open_with_read("div"@, "class"@, outer, second);
    assert("\"><div class=\"confluence-information-macro-body\">"@ =~= "\">"@ + second);
    assert("<div class=\"confluence-information-macro "@ =~= "<"@ + "div"@ + " "@ + "class"@ + "=\""@
        + "confluence-information-macro "@);
    assert("<div class=\"confluence-information-macro "@ + class
        + "\"><div class=\"confluence-information-macro-body\">"@ =~= "<"@ + "div"@ + " "@ + "class"@
        + "=\""@ + outer + "\">"@ + second);
    let one = opened_with("div"@, "class"@, outer);
    let two = opened_with("div"@, "class"@, inner);
    lemma_end_read(seq![two]);
    assert(seq![one] + seq![two] =~= seq![one, two]);
}

proof fn lemma_two_divs_close()
    ensures
        html_read("</div></div>"@) == seq![HtmlEvent::Close("div"@), HtmlEvent::Close("div"@)],
{
    reveal_strlit("</div></div>");
    reveal_strlit("</");
    reveal_strlit("div");
    reveal_strlit(">");
    lemma_names();
    let none = Seq::<char>::empty();
    let last = "</"@ + "div"@ + ">"@ + none;
    lemma_close_read("div"@, none);
    lemma_close_read("div"@, last);
    assert("</div></div>"@ =~= "</"@ + "div"@ + ">"@ + last);
    let close = HtmlEvent::Close("div"@);
    lemma_end_read(seq![close]);
    assert(seq![close] + seq![close] =~= seq![close, close]);
}

/// An alert holds its body as it was written, inside the element whose class
/// names the kind of the alert.
pub proof fn law_alert_holds_its_body(name: Seq<char>, body: Seq<char>)
    ensures
        holds_between(
            alert_html(name, body),
            seq![
                opened_with(
                    "div"@,
                    "class"@,
                    "confluence-information-macro "@ + ("confluence-information-macro-"@
                        + alert_word(lower(name))),
                ),
                opened_with("div"@, "class"@, "confluence-information-macro-body"@),
            ],
            body,
            seq![HtmlEvent::Close("div"@), HtmlEvent::Close("div"@)],
        ),
{
    let class = alert_class(lower(name));
    let head = "<div class=\"confluence-information-macro "@ + class
        + "\"><div class=\"confluence-information-macro-body\">"@;
    let tail = "</div></div>"@;
    lemma_alert_class(lower(name));
    lemma_alert_head(class);
    lemma_two_divs_close();
    assert(alert_html(name, body) == head + body + tail);
}

// ── Code macros ────────────────────────────────────────────────────

/// A code macro becomes a block of its code, without the white space around
/// it, in its language.
pub proof fn law_code_macro_shows_its_code(block: Seq<char>)
    ensures
        html_read(code_macro_html(block)) == code_events(
            match first_group(CODE_LANGUAGE@, block, 1) {
                Some(language) => stripped(language),
                None => Seq::empty(),
            },
            match first_group(CODE_BODY@, block, 1) {
                Some(code) => trimmed(code, white()),
                None => Seq::empty(),
            },
        ),
{
    let code = or_empty(first_group(CODE_BODY@, block, 1));
    if first_group(CODE_BODY@, block, 1) is None {
        assert(trimmed(code, white()) =~= Seq::empty());
    }
    law_code_block_reads_back(
        or_empty(first_stripped(CODE_LANGUAGE@, block, 1)),
        trimmed(code, white()),
    );
}

/// Every code macro of a page becomes its block, and all else stays.
pub proof fn law_every_code_macro_becomes_its_block(t: Seq<char>)
    requires
        well_placed(t.len(), all_matches(CODE_MACRO@, t)),
    ensures
        ({
            let ms = all_matches(CODE_MACRO@, t);
            let parts = parts_between(t, whole_spans(ms));
            &&& t == woven_from(parts, Seq::new(ms.len(), |k: int| whole_text(t, ms[k])), 0)
            &&& rewritten(CODE_MACRO@, t, code_rewriting()) == woven_from(
                parts,
                Seq::new(ms.len(), |k: int| code_macro_html(whole_text(t, ms[k]))),
                0,
            )
        }),
{
    let ms = all_matches(CODE_MACRO@, t);
    let g = code_rewriting();
    law_rewriting_replaces_every_match(CODE_MACRO@, t, g);
    assert(Seq::new(ms.len(), |k: int| g(t, ms[k])) =~= Seq::new(
        ms.len(),
        |k: int| code_macro_html(whole_text(t, ms[k])),
    ));
}

// ── Expand macros ──────────────────────────────────────────────────

/// What stands between the tags of an expand macro's body is the body.
pub proof fn law_rich_body_stands_between_its_tags(
    before: Seq<char>,
    body: Seq<char>,
    after: Seq<char>,
)
    requires
        ({
            let block = before + BODY_OPEN@ + body + BODY_CLOSE@ + after;
            &&& forall|i: int| i < before.len() ==> !#[trigger] occurs_at(block, BODY_OPEN@, i)
            &&& forall|i: int|
                i > (before + BODY_OPEN@ + body).len() ==> !#[trigger] occurs_at(
                    block,
                    BODY_CLOSE@,
                    i,
                )
        }),
    ensures
        rich_body(before + BODY_OPEN@ + body + BODY_CLOSE@ + after) == body,
{
    let block = before + BODY_OPEN@ + body + BODY_CLOSE@ + after;
    let a = before.len() as int;
    let b = (before + BODY_OPEN@ + body).len() as int;
    assert(block.subrange(a, a + BODY_OPEN@.len()) =~= BODY_OPEN@);
    assert(occurs_at(block, BODY_OPEN@, a));
    assert(block.subrange(b, b + BODY_CLOSE@.len()) =~= BODY_CLOSE@);
    assert(occurs_at(block, BODY_CLOSE@, b));
    lemma_index_from(block, BODY_OPEN@, 0);
    lemma_last_index_from(block, BODY_CLOSE@, block.len() - BODY_CLOSE@.len());
    assert(index_from(block, BODY_OPEN@, 0) == Some(a));
    assert(last_index(block, BODY_CLOSE@) == Some(b));
    assert(block.subrange(a + BODY_OPEN@.len(), b) =~= body);
}

/// An expand macro becomes a disclosure: its title in the summary, and its
/// body, the expand macros in it rewritten, behind the summary.
pub proof fn law_expand_shows_title_and_body(title: Seq<char>, block: Seq<char>)
    requires
        block.len() > 0,
    ensures
        exists|head: Seq<char>, mid: Seq<char>, tail: Seq<char>|
            expand_html(title, block) == #[trigger] (head + title + mid + expanded(rich_body(block))
                + tail) && html_read(head) == seq![opened("details"@), opened("summary"@)]
                && html_read(mid) == seq![HtmlEvent::Close("summary"@)] && html_read(tail) == seq![
                HtmlEvent::Close("details"@),
            ],
{
    let head = "<details><summary>"@;
    let mid = "</summary>"@;
    let tail = "</details>"@;
    lemma_details_read();
    assert(expand_html(title, block) == head + title + mid + expanded(rich_body(block)) + tail);
}

proof fn lemma_details_read()
    ensures
        html_read("<details><summary>"@) == seq![opened("details"@), opened("summary"@)],
        html_read("</summary>"@) == seq![HtmlEvent::Close("summary"@)],
        html_read("</details>"@) == seq![HtmlEvent::Close("details"@)],
{
    reveal_strlit("<details><summary>");
    reveal_strlit("</summary>");
    reveal_strlit("</details>");
    reveal_strlit("details");
    reveal_strlit("summary");
    reveal_strlit("<");
    reveal_strlit("</");
    reveal_strlit(">");
    let none = Seq::<char>::empty();
    let inner = "<"@ + "summary"@ + ">"@ + none;
    assert(is_name("details"@));
    assert(is_name("summary"@));
    lemma_plain_open_read("summary"@, none);
    lemma_plain_open_read("details"@, inner);
    lemma_close_read("summary"@, none);
    lemma_close_read("details"@, none);
    assert("<details><summary>"@ =~= "<"@ + "details"@ + ">"@ + inner);
    assert("</summary>"@ =~= "</"@ + "summary"@ + ">"@ + none);
    assert("</details>"@ =~= "</"@ + "details"@ + ">"@ + none);
    lemma_end_read(seq![opened("summary"@)]);
    lemma_end_read(seq![HtmlEvent::Close("summary"@)]);
    lemma_end_read(seq![HtmlEvent::Close("details"@)]);
    assert(seq![opened("details"@)] + seq![opened("summary"@)] =~= seq![
        opened("details"@),
        opened("summary"@),
    ]);
}

pub proof fn lemma_tag_close_shift(t: Seq<char>, k: int, i: int, quoted: bool)
    requires
        0 <= k <= i <= t.len(),
    ensures
        tag_close(t, i, quoted) == moved(tag_close(t.skip(k), i - k, quoted), k),
    decreases t.len() - i,
{
    if i < t.len() {
        assert(t.skip(k)[i - k] == t[i]);
        let next = if t[i] == '"' {
            !quoted
        } else {
            quoted
        };
        lemma_tag_close_shift(t, k, i + 1, next);
    }
}

pub proof fn lemma_macro_close_shift(t: Seq<char>, k: int, i: int, depth: int)
    requires
        0 <= k <= i <= t.len(),
    ensures
        macro_close(t, i, depth) == moved(macro_close(t.skip(k), i - k, depth), k),
    decreases t.len() - i,
{
    reveal_strlit("<ac:structured-macro");
    reveal_strlit("</ac:structured-macro>");
    let u = t.skip(k);
    lemma_index_shift(t, MACRO_CLOSE@, k, i);
    lemma_index_shift(t, MACRO_OPEN@, k, i);
    lemma_index_from(t, MACRO_CLOSE@, i);
    lemma_index_from(t, MACRO_OPEN@, i);
    if let Some(close) = index_from(t, MACRO_CLOSE@, i) {
        let open = index_from(t, MACRO_OPEN@, i);
        if open is Some && open->0 < close {
            let from = open->0 + MACRO_OPEN@.len();
            lemma_tag_close_shift(t, k, from, false);
            lemma_tag_close(t, from, false);
            if let Some(e) = tag_close(t, from, false) {
                assert(u[e - 1 - k] == t[e - 1]);
                let next = if t[e - 1] == '/' {
                    depth
                } else {
                    depth + 1
                };
                lemma_macro_close_shift(t, k, e + 1, next);
            }
        } else if depth > 1 {
            lemma_macro_close_shift(t, k, close + MACRO_CLOSE@.len(), depth - 1);
        }
    }
}

/// The first macro at or behind a position, and where its opening tag ends.
pub open spec fn macro_tag(t: Seq<char>, i: int) -> Option<(int, int)> {
    match index_from(t, MACRO_OPEN@, i) {
        Some(m) => match tag_close(t, m + MACRO_OPEN@.len(), false) {
            Some(e) => Some((m, e)),
            None => None,
        },
        None => None,
    }
}

/// Where the rewriting goes on behind the macro whose opening tag is given,
/// from where the text is kept up to, and what stands for the macro.
pub open spec fn macro_shown(t: Seq<char>, m: int, e: int) -> (int, int, Seq<char>) {
    if !is_expand(t.subrange(m, e + 1)) {
        (e + 1, e + 1, Seq::empty())
    } else if t[e - 1] == '/' {
        (e + 1, m, "<details><summary></summary></details>"@)
    } else {
        match macro_close(t, e + 1, 1) {
            None => (e + 1, e + 1, Seq::empty()),
            Some(end) => (
                end,
                m,
                expand_html(
                    or_empty(first_stripped(EXPAND_TITLE@, t.subrange(m, end), 1)),
                    t.subrange(m, end),
                ),
            ),
        }
    }
}

proof fn lemma_macro_tag(t: Seq<char>, i: int)
    requires
        0 <= i <= t.len(),
    ensures
        macro_tag(t, i) matches Some((m, e)) ==> i <= m && m + 20 <= e < t.len(),
        macro_tag(t, i) matches Some((m, e)) ==> i < macro_shown(t, m, e).0 <= t.len() && i
            <= macro_shown(t, m, e).1 <= t.len(),
{
    reveal_strlit("<ac:structured-macro");
    lemma_index_from(t, MACRO_OPEN@, i);
    if let Some(m) = index_from(t, MACRO_OPEN@, i) {
        lemma_tag_close(t, m + MACRO_OPEN@.len(), false);
        if let Some(e) = tag_close(t, m + MACRO_OPEN@.len(), false) {
            lemma_macro_close(t, e + 1, 1);
        }
    }
}

proof fn lemma_expanded_step(t: Seq<char>, i: int)
    requires
        0 <= i <= t.len(),
    ensures
        match macro_tag(t, i) {
            Some((m, e)) => {
                let (next, kept, shown) = macro_shown(t, m, e);
                expanded_from(t, i) == t.subrange(i, kept) + shown + expanded_from(t, next)
            },
            None => expanded_from(t, i) == t.skip(i),
        },
{
    lemma_macro_tag(t, i);
    assert(t.subrange(i, t.len() as int) =~= t.skip(i));
    if let Some((m, e)) = macro_tag(t, i) {
        lemma_macro_close(t, e + 1, 1);
        let (next, kept, shown) = macro_shown(t, m, e);
        let rest = expanded_from(t, next);
        if shown.len() == 0 {
            assert(t.subrange(i, kept) + shown + rest =~= t.subrange(i, kept) + rest);
        }
    }
}

proof fn lemma_macro_tag_shift(t: Seq<char>, k: int)
    requires
        0 <= k <= t.len(),
    ensures
        macro_tag(t, k) == match macro_tag(t.skip(k), 0) {
            Some((m, e)) => Some((m + k, e + k)),
            None => None,
        },
{
    reveal_strlit("<ac:structured-macro");
    lemma_index_shift(t, MACRO_OPEN@, k, k);
    lemma_index_from(t, MACRO_OPEN@, k);
    if let Some(m) = index_from(t, MACRO_OPEN@, k) {
        lemma_tag_close_shift(t, k, m + MACRO_OPEN@.len(), false);
    }
}

proof fn lemma_macro_shown_shift(t: Seq<char>, k: int, m: int, e: int)
    requires
        0 <= k <= t.len(),
        macro_tag(t.skip(k), 0) == Some((m, e)),
    ensures
        macro_shown(t, m + k, e + k).0 == macro_shown(t.skip(k), m, e).0 + k,
        macro_shown(t, m + k, e + k).1 == macro_shown(t.skip(k), m, e).1 + k,
        macro_shown(t, m + k, e + k).2 == macro_shown(t.skip(k), m, e).2,
{
    let u = t.skip(k);
    lemma_macro_tag(u, 0);
    assert(u.subrange(m, e + 1) =~= t.subrange(m + k, e + k + 1));
    assert(u[e - 1] == t[e + k - 1]);
    lemma_macro_close_shift(t, k, e + k + 1, 1);
    lemma_macro_close(u, e + 1, 1);
    if let Some(end) = macro_close(u, e + 1, 1) {
        assert(u.subrange(m, end) =~= t.subrange(m + k, end + k));
    }
}

proof fn lemma_expanded_rest(t: Seq<char>, k: int)
    requires
        0 <= k <= t.len(),
    ensures
        expanded_from(t, k) == expanded_from(t.skip(k), 0),
    decreases t.len() - k,
{
    let u = t.skip(k);
    if k == 0 {
        assert(u =~= t);
    } else {
        lemma_expanded_step(t, k);
        lemma_expanded_step(u, 0);
        lemma_macro_tag_shift(t, k);
        lemma_macro_tag(u, 0);
        if let Some((m, e)) = macro_tag(u, 0) {
            lemma_macro_shown_shift(t, k, m, e);
            let (next, kept, shown) = macro_shown(u, m, e);
            lemma_expanded_rest(t, next + k);
            lemma_expanded_rest(u, next);
            assert(t.skip(next + k) =~= u.skip(next));
            assert(t.subrange(k, kept + k) =~= u.subrange(0, kept));
        } else {
            assert(u.skip(0) =~= u);
        }
    }
}

/// A page is rewritten macro by macro: what stands before its first macro
/// stays, the macro becomes what stands for it, and what stands behind it is
/// rewritten as a page of its own.
pub proof fn law_expand_then_the_rest(t: Seq<char>, m: int, e: int)
    requires
        macro_tag(t, 0) == Some((m, e)),
    ensures
        !is_expand(t.subrange(m, e + 1)) ==> expanded(t) == t.take(e + 1) + expanded(t.skip(e + 1)),
        is_expand(t.subrange(m, e + 1)) && t[e - 1] == '/' ==> expanded(t) == t.take(m)
            + "<details><summary></summary></details>"@ + expanded(t.skip(e + 1)),
        is_expand(t.subrange(m, e + 1)) && t[e - 1] != '/' ==> match macro_close(t, e + 1, 1) {
            Some(end) => expanded(t) == t.take(m) + expand_html(
                or_empty(first_stripped(EXPAND_TITLE@, t.subrange(m, end), 1)),
                t.subrange(m, end),
            ) + expanded(t.skip(end)),
            None => expanded(t) == t.take(e + 1) + expanded(t.skip(e + 1)),
        },
{
    lemma_macro_tag(t, 0);
    lemma_expanded_step(t, 0);
    let (next, kept, shown) = macro_shown(t, m, e);
    lemma_expanded_rest(t, next);
    assert(t.subrange(0, kept) =~= t.take(kept));
    if shown.len() == 0 {
        assert(t.take(kept) + shown + expanded(t.skip(next)) =~= t.take(kept) + expanded(
            t.skip(next),
        ));
    }
}

// ── Tasks ──────────────────────────────────────────────────────────

/// Whether a task tells its identifier and its status.
pub open spec fn tells_status(task: Seq<char>, id: Seq<char>) -> bool {
    first_stripped(TASK_ID@, task, 1) == Some(id) && first_group(TASK_STATUS@, task, 1) is Some
}

/// The status of a task is that of the last entry that tells one for its
/// identifier, in small letters.
pub proof fn law_last_status_counts(tasks: Seq<Seq<char>>, n: int, k: int, id: Seq<char>)
    requires
        0 <= k < n <= tasks.len(),
        tells_status(tasks[k], id),
        forall|j: int| k < j < n ==> !tells_status(#[trigger] tasks[j], id),
    ensures
        statuses_of(tasks, n).contains_key(id),
        statuses_of(tasks, n)[id] == lower(first_group(TASK_STATUS@, tasks[k], 1)->0),
    decreases n,
{
    if k < n - 1 {
        law_last_status_counts(tasks, n - 1, k, id);
        assert(!tells_status(tasks[n - 1], id));
    }
}

/// An identifier for which no task tells a status has none.
pub proof fn law_no_status_is_invented(tasks: Seq<Seq<char>>, n: int, id: Seq<char>)
    requires
        n <= tasks.len(),
        forall|j: int| 0 <= j < n ==> !tells_status(#[trigger] tasks[j], id),
    ensures
        !statuses_of(tasks, n).contains_key(id),
    decreases n,
{
    if n > 0 {
        law_no_status_is_invented(tasks, n - 1, id);
        assert(!tells_status(tasks[n - 1], id));
    }
}

/// An item that shows no status gets the known status of its task as one more
/// attribute, and keeps all that it had.
pub proof fn law_status_is_added(
    before: Seq<char>,
    id: Seq<char>,
    after: Seq<char>,
    statuses: Map<Seq<char>, Seq<char>>,
)
    requires
        statuses.contains_key(id),
        !occurs_in(
            "<li"@ + before + " data-inline-task-id=\""@ + id + "\""@ + after + ">"@,
            "data-task-status="@,
        ),
    ensures
        ({
            let original = "<li"@ + before + " data-inline-task-id=\""@ + id + "\""@ + after + ">"@;
            item_with_status(original, before, id, after, statuses) == original.drop_last()
                + " data-task-status=\""@ + statuses[id] + "\""@ + ">"@
        }),
{
    reveal_strlit(">");
    reveal_strlit("\"");
    reveal_strlit("\">");
    let open = "<li"@ + before + " data-inline-task-id=\""@ + id + "\""@ + after;
    let original = open + ">"@;
    assert(original.drop_last() =~= open);
    assert("\""@ + ">"@ =~= "\">"@);
    assert(item_with_status(original, before, id, after, statuses) =~= open
        + " data-task-status=\""@ + statuses[id] + "\""@ + ">"@);
}

/// An item that shows a status, or whose task has none, stays as it is.
pub proof fn law_shown_status_stays(
    original: Seq<char>,
    before: Seq<char>,
    id: Seq<char>,
    after: Seq<char>,
    statuses: Map<Seq<char>, Seq<char>>,
)
    requires
        occurs_in(original, "data-task-status="@) || !statuses.contains_key(id),
    ensures
        item_with_status(original, before, id, after, statuses) == original,
{
}

/// Every task item of a page gets its status, and all else stays.
pub proof fn law_every_task_gets_its_status(rendered: Seq<char>, storage: Seq<char>)
    requires
        well_placed(rendered.len(), all_matches(TASK_ITEM_OPEN@, rendered)),
        task_statuses(storage) != Map::<Seq<char>, Seq<char>>::empty(),
    ensures
        ({
            let ms = all_matches(TASK_ITEM_OPEN@, rendered);
            let parts = parts_between(rendered, whole_spans(ms));
            &&& rendered == woven_from(
                parts,
                Seq::new(ms.len(), |k: int| whole_text(rendered, ms[k])),
                0,
            )
            &&& with_task_statuses(rendered, storage) == woven_from(
                parts,
                Seq::new(
                    ms.len(),
                    |k: int|
                        item_with_status(
                            whole_text(rendered, ms[k]),
                            group_text(rendered, ms[k], 1),
                            group_text(rendered, ms[k], 2),
                            group_text(rendered, ms[k], 3),
                            task_statuses(storage),
                        ),
                ),
                0,
            )
        }),
{
    let ms = all_matches(TASK_ITEM_OPEN@, rendered);
    let statuses = task_statuses(storage);
    let g = status_rewriting(statuses);
    law_rewriting_replaces_every_match(TASK_ITEM_OPEN@, rendered, g);
    assert(Seq::new(ms.len(), |k: int| g(rendered, ms[k])) =~= Seq::new(
        ms.len(),
        |k: int|
            item_with_status(
                whole_text(rendered, ms[k]),
                group_text(rendered, ms[k], 1),
                group_text(rendered, ms[k], 2),
                group_text(rendered, ms[k], 3),
                statuses,
            ),
    ));
}

/// Every task item of a page gets its check box, set where its attributes
/// show a finished task, and keeps its attributes and its body without the
/// white space around it.
pub proof fn law_every_task_item_gets_its_box(t: Seq<char>)
    requires
        well_placed(t.len(), all_matches(TASK_ITEM@, t)),
    ensures
        ({
            let ms = all_matches(TASK_ITEM@, t);
            let parts = parts_between(t, whole_spans(ms));
            &&& t == woven_from(parts, Seq::new(ms.len(), |k: int| whole_text(t, ms[k])), 0)
            &&& rewritten(TASK_ITEM@, t, item_rewriting()) == woven_from(
                parts,
                Seq::new(
                    ms.len(),
                    |k: int|
                        {
                            let attrs = trimmed_end(group_text(t, ms[k], 1), white())
                                + " data-inline-task-id=\""@ + group_text(t, ms[k], 2) + "\""@
                                + group_text(t, ms[k], 3);
                            task_item_html(
                                attrs,
                                item_is_checked(attrs),
                                trimmed(group_text(t, ms[k], 4), white()),
                            )
                        },
                ),
                0,
            )
        }),
{
    let ms = all_matches(TASK_ITEM@, t);
    let g = item_rewriting();
    law_rewriting_replaces_every_match(TASK_ITEM@, t, g);
    let fills = Seq::new(
        ms.len(),
        |k: int|
            {
                            let attrs = trimmed_end(group_text(t, ms[k], 1), white())
                                + " data-inline-task-id=\""@ + group_text(t, ms[k], 2) + "\""@
                                + group_text(t, ms[k], 3);
                            task_item_html(
                                attrs,
                                item_is_checked(attrs),
                                trimmed(group_text(t, ms[k], 4), white()),
                            )
                        },
    );
    assert(Seq::new(ms.len(), |k: int| g(t, ms[k])) =~= fills);
}

/// Every alert macro of a page becomes the alert of its name around its body.
pub proof fn law_every_alert_macro_becomes_its_alert(t: Seq<char>)
    requires
        well_placed(t.len(), all_matches(ALERT_MACRO@, t)),
    ensures
        ({
            let ms = all_matches(ALERT_MACRO@, t);
            let parts = parts_between(t, whole_spans(ms));
            &&& t == woven_from(parts, Seq::new(ms.len(), |k: int| whole_text(t, ms[k])), 0)
            &&& rewritten(ALERT_MACRO@, t, alert_rewriting()) == woven_from(
                parts,
                Seq::new(
                    ms.len(),
                    |k: int|
                        alert_html(
                            group_text(t, ms[k], 1),
                            match first_group(ALERT_BODY@, whole_text(t, ms[k]), 1) {
                                Some(body) => body,
                                None => Seq::empty(),
                            },
                        ),
                ),
                0,
            )
        }),
{
    let ms = all_matches(ALERT_MACRO@, t);
    let g = alert_rewriting();
    law_rewriting_replaces_every_match(ALERT_MACRO@, t, g);
    let fills = Seq::new(
        ms.len(),
        |k: int|
            alert_html(
                            group_text(t, ms[k], 1),
                            match first_group(ALERT_BODY@, whole_text(t, ms[k]), 1) {
                                Some(body) => body,
                                None => Seq::empty(),
                            },
                        ),
    );
    assert(Seq::new(ms.len(), |k: int| g(t, ms[k])) =~= fills);
}

/// Every Google Drive macro of a page that names an address becomes a link to
/// it, or its text inside an anchor; one without an address goes.
pub proof fn law_every_drive_macro_becomes_its_link(t: Seq<char>)
    requires
        well_placed(t.len(), all_matches(GDRIVE_MACRO@, t)),
    ensures
        ({
            let ms = all_matches(GDRIVE_MACRO@, t);
            let parts = parts_between(t, whole_spans(ms));
            &&& t == woven_from(parts, Seq::new(ms.len(), |k: int| whole_text(t, ms[k])), 0)
            &&& rewritten(GDRIVE_MACRO@, t, gdrive_macro_rewriting()) == woven_from(
                parts,
                Seq::new(
                    ms.len(),
                    |k: int|
                        match macro_param(whole_text(t, ms[k]), "url"@) {
                            Some(url) => if url.len() == 0 {
                                Seq::empty()
                            } else {
                                gdrive_html(url, inside_anchor(t, whole_span(ms[k]).start as int))
                            },
                            None => Seq::empty(),
                        },
                ),
                0,
            )
        }),
{
    let ms = all_matches(GDRIVE_MACRO@, t);
    let g = gdrive_macro_rewriting();
    law_rewriting_replaces_every_match(GDRIVE_MACRO@, t, g);
    let fills = Seq::new(
        ms.len(),
        |k: int|
            match macro_param(whole_text(t, ms[k]), "url"@) {
                            Some(url) => if url.len() == 0 {
                                Seq::empty()
                            } else {
                                gdrive_html(url, inside_anchor(t, whole_span(ms[k]).start as int))
                            },
                            None => Seq::empty(),
                        },
    );
    assert(Seq::new(ms.len(), |k: int| g(t, ms[k])) =~= fills);
}

/// Every rendered placeholder of a Google Drive file becomes a link to the
/// address in its context, or the text of the link inside an anchor.
pub proof fn law_every_drive_placeholder_becomes_its_link(t: Seq<char>)
    requires
        well_placed(t.len(), all_matches(GDRIVE_RENDERED@, t)),
    ensures
        ({
            let ms = all_matches(GDRIVE_RENDERED@, t);
            let parts = parts_between(t, whole_spans(ms));
            &&& t == woven_from(parts, Seq::new(ms.len(), |k: int| whole_text(t, ms[k])), 0)
            &&& rewritten(GDRIVE_RENDERED@, t, gdrive_rendered_rewriting()) == woven_from(
                parts,
                Seq::new(
                    ms.len(),
                    |k: int|
                        gdrive_html(
                            context_url(whole_text(t, ms[k])),
                            inside_anchor(t, whole_span(ms[k]).start as int),
                        ),
                ),
                0,
            )
        }),
{
    let ms = all_matches(GDRIVE_RENDERED@, t);
    let g = gdrive_rendered_rewriting();
    law_rewriting_replaces_every_match(GDRIVE_RENDERED@, t, g);
    let fills = Seq::new(
        ms.len(),
        |k: int|
            gdrive_html(
                            context_url(whole_text(t, ms[k])),
                            inside_anchor(t, whole_span(ms[k]).start as int),
                        ),
    );
    assert(Seq::new(ms.len(), |k: int| g(t, ms[k])) =~= fills);
}

/// Every storage-format Jira macro of a page becomes the link to its issue:
/// the browse address, a slash and the key. Without a browse address the bare
/// key is left, and nothing where the macro names no key.
pub proof fn law_every_jira_macro_becomes_its_link(t: Seq<char>, base: Option<Seq<char>>)
    requires
        well_placed(t.len(), all_matches(JIRA_MACRO@, t)),
    ensures
        ({
            let ms = all_matches(JIRA_MACRO@, t);
            let parts = parts_between(t, whole_spans(ms));
            &&& t == woven_from(parts, Seq::new(ms.len(), |k: int| whole_text(t, ms[k])), 0)
            &&& rewritten(JIRA_MACRO@, t, issue_rewriting(base)) == woven_from(
                parts,
                Seq::new(
                    ms.len(),
                    |k: int|
                        match macro_param(whole_text(t, ms[k]), "key"@) {
                            Some(key) => if key.len() == 0 {
                                Seq::empty()
                            } else {
                                match base {
                                    Some(b) => issue_link(key, b + "/"@ + key),
                                    None => escaped(key),
                                }
                            },
                            None => Seq::empty(),
                        },
                ),
                0,
            )
        }),
{
    let ms = all_matches(JIRA_MACRO@, t);
    let g = issue_rewriting(base);
    law_rewriting_replaces_every_match(JIRA_MACRO@, t, g);
    let fills = Seq::new(
        ms.len(),
        |k: int|
            match macro_param(whole_text(t, ms[k]), "key"@) {
                            Some(key) => if key.len() == 0 {
                                Seq::empty()
                            } else {
                                match base {
                                    Some(b) => issue_link(key, b + "/"@ + key),
                                    None => escaped(key),
                                }
                            },
                            None => Seq::empty(),
                        },
    );
    assert(Seq::new(ms.len(), |k: int| g(t, ms[k])) =~= fills);
}

// ── All macros ─────────────────────────────────────────────────────

/// A page without code macros.
pub open spec fn no_code(t: Seq<char>) -> bool {
    all_matches(CODE_MACRO@, t).len() == 0
}

/// A page without issues.
pub open spec fn no_issues(t: Seq<char>) -> bool {
    all_matches(JIRA_MACRO@, t).len() == 0 && first_match(ISSUE_SPAN_OPEN@, t) is None
}

/// A page without Google Drive files.
pub open spec fn no_drive(t: Seq<char>) -> bool {
    all_matches(GDRIVE_MACRO@, t).len() == 0 && all_matches(GDRIVE_RENDERED@, t).len() == 0
}

/// A page without tasks.
pub open spec fn no_tasks(t: Seq<char>) -> bool {
    all_matches(TASK_ITEM@, t).len() == 0
}

/// A page without alert macros.
pub open spec fn no_alerts(t: Seq<char>) -> bool {
    all_matches(ALERT_MACRO@, t).len() == 0
}

/// Each kind of macro is rewritten: on a page that holds one kind, and whose
/// rewriting holds no other, the result is the rewriting of that kind.
pub proof fn law_each_kind_is_rewritten(t: Seq<char>)
    ensures
        ({
            let r = rewritten(CODE_MACRO@, t, code_rewriting());
            !occurs_in(r, MACRO_OPEN@) && no_issues(r) && no_drive(r) && no_tasks(r) && no_alerts(r)
                ==> preprocessed(t) == r
        }),
        ({
            let r = expanded(t);
            no_code(t) && no_issues(r) && no_drive(r) && no_tasks(r) && no_alerts(r)
                ==> preprocessed(t) == r
        }),
        ({
            let r = issues_linked(t);
            no_code(t) && !occurs_in(t, MACRO_OPEN@) && no_drive(r) && no_tasks(r) && no_alerts(r)
                ==> preprocessed(t) == r
        }),
        ({
            let r = gdrive_linked(t);
            no_code(t) && !occurs_in(t, MACRO_OPEN@) && no_issues(t) && no_tasks(r) && no_alerts(r)
                ==> preprocessed(t) == r
        }),
        ({
            let r = rewritten(TASK_ITEM@, t, item_rewriting());
            no_code(t) && !occurs_in(t, MACRO_OPEN@) && no_issues(t) && no_drive(t) && no_alerts(r)
                ==> preprocessed(t) == r
        }),
        no_code(t) && !occurs_in(t, MACRO_OPEN@) && no_issues(t) && no_drive(t) && no_tasks(t)
            ==> preprocessed(t) == rewritten(ALERT_MACRO@, t, alert_rewriting()),
{
    lemma_kept_by_each(t);
    lemma_kept_by_each(rewritten(CODE_MACRO@, t, code_rewriting()));
    lemma_kept_by_each(expanded(t));
    lemma_kept_by_each(issues_linked(t));
    lemma_kept_by_each(gdrive_linked(t));
    lemma_kept_by_each(rewritten(TASK_ITEM@, t, item_rewriting()));
}

proof fn lemma_kept_by_each(t: Seq<char>)
    ensures
        no_code(t) ==> rewritten(CODE_MACRO@, t, code_rewriting()) == t,
        !occurs_in(t, MACRO_OPEN@) ==> expanded(t) == t,
        no_issues(t) ==> issues_linked(t) == t,
        no_drive(t) ==> gdrive_linked(t) == t,
        no_tasks(t) ==> rewritten(TASK_ITEM@, t, item_rewriting()) == t,
        no_alerts(t) ==> rewritten(ALERT_MACRO@, t, alert_rewriting()) == t,
{
    if no_code(t) {
        law_rewriting_nothing(CODE_MACRO@, t, code_rewriting());
    }
    if !occurs_in(t, MACRO_OPEN@) {
        law_expand_leaves_plain_html(t);
    }
    if no_issues(t) {
        law_jira_leaves_other_html(t);
    }
    if no_drive(t) {
        law_rewriting_nothing(GDRIVE_MACRO@, t, gdrive_macro_rewriting());
        law_rewriting_nothing(GDRIVE_RENDERED@, t, gdrive_rendered_rewriting());
    }
    if no_tasks(t) {
        law_rewriting_nothing(TASK_ITEM@, t, item_rewriting());
    }
    if no_alerts(t) {
        law_rewriting_nothing(ALERT_MACRO@, t, alert_rewriting());
    }
}


// ── Finished tasks ─────────────────────────────────────────────────

/// A task is finished where any sign of it says so: its status, its state for
/// assistive tools, or any of its class names, in whatever case.
pub proof fn law_any_sign_finishes_a_task(attrs: Seq<char>, class: Seq<char>, i: int)
    requires
        0 <= i < words(class).len(),
    ensures
        first_match(ITEM_STATUS@, attrs) is Some ==> item_is_checked(attrs),
        first_match(ITEM_ARIA@, attrs) is Some ==> item_is_checked(attrs),
        first_group(ITEM_CLASS@, attrs, 1) == Some(class) && (lower(words(class)[i]) == "checked"@
            || lower(words(class)[i]) == "complete"@) ==> item_is_checked(attrs),
        first_match(ITEM_STATUS@, attrs) is None && first_match(ITEM_ARIA@, attrs) is None
            && first_group(ITEM_CLASS@, attrs, 1) is None ==> !item_is_checked(attrs),
{
}

/// A list item is blank where nothing but white space is left of it without
/// its tags.
pub proof fn law_blank_items_show_no_text(body: Seq<char>)
    requires
        !occurs_in(stripped(body), "&nbsp;"@),
    ensures
        is_blank(body) <==> inks(stripped(body)).len() == 0,
{
    let t = stripped(body);
    lemma_nothing_replaced(t, "&nbsp;"@, ""@, 0);
    assert(t.skip(0) =~= t);
    lemma_inks_of_trimmed(t);
    let inner = trimmed(t, white());
    let n = t.len() as int;
    lemma_skip(t, white(), 0);
    lemma_skip_back(t, white(), n);
    if inner.len() > 0 {
        let b = skip_back(t, white(), n);
        assert(inner.last() == t[b - 1]);
        assert(!white()(t[b - 1]));
    }
}

} // verus!
