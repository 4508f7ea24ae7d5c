//! What a reader finds in the HTML that stands for macros, issues, tasks and
//! diagrams.

use vstd::prelude::*;

use crate::drawio::{
    diagram_image, fallback_block, image_rewriting, images_replaced, script_rewriting,
    scripts_replaced, DRAWIO_IMAGE, DRAWIO_SCRIPT, FallbackDiagram,
};
use crate::entities::{blocks, lemma_escaped_joined, lemma_plain_blocks};
use crate::export_html::woven_from;
use crate::jira::{browse_base, issue_link, rendered_link};
use crate::macros::{code_html, gdrive_html, inside_anchor, is_blank, task_item_html};
use crate::pattern::{
    all_matches, group_text, law_rewriting_by_number_keeps_order, parts_between, well_placed,
    whole_spans, whole_text,
};
use crate::plantuml::{images_as_code, source_html, source_rewriting, PLANTUML_IMAGE};
use crate::reading::{
    all_valued, attributes_read, ends_tag, html_read, is_name, law_escaped_text_reads_back,
    law_escaped_value_reads_back, lemma_attribute_read, lemma_close_read, lemma_end_read,
    lemma_no_attributes_read, lemma_open_with_read, lemma_plain_open_read, lemma_single_read,
    letters, opened, opened_with, reads_as, HtmlEvent,
};
use crate::text::{
    index_from, last_index, lemma_index_from, lemma_last_index_from, occurs_at, trimmed, white,
};
use crate::trees::lemma_plain_read;
use crate::utils::{attribute_decoded, escaped, law_escape_keeps_plain_text, stripped};

verus! {

pub proof fn lemma_names()
    ensures
        is_name("a"@),
        is_name("p"@),
        is_name("pre"@),
        is_name("code"@),
        is_name("img"@),
        is_name("div"@),
        is_name("src"@),
        is_name("alt"@),
        is_name("href"@),
        is_name("class"@),
{
    reveal_strlit("a");
    reveal_strlit("p");
    reveal_strlit("pre");
    reveal_strlit("code");
    reveal_strlit("img");
    reveal_strlit("div");
    reveal_strlit("src");
    reveal_strlit("alt");
    reveal_strlit("href");
    reveal_strlit("class");
}

// ── Code blocks ────────────────────────────────────────────────────

/// What a reader finds in a code block: its language as a class, where there
/// is one, and its text.
pub open spec fn code_events(language: Seq<char>, code: Seq<char>) -> Seq<HtmlEvent> {
    seq![
        opened("pre"@),
        if language.len() == 0 {
            opened("code"@)
        } else {
            opened_with("code"@, "class"@, "language-"@ + language)
        },
    ] + letters(code) + seq![HtmlEvent::Close("code"@), HtmlEvent::Close("pre"@)]
}

/// The closing tags of a code block, and its text before them.
proof fn lemma_code_tail(code: Seq<char>)
    ensures
        html_read(escaped(code) + "</code></pre>"@) == letters(code) + seq![
            HtmlEvent::Close("code"@),
            HtmlEvent::Close("pre"@),
        ],
{
    reveal_strlit("</code></pre>");
    reveal_strlit("</");
    reveal_strlit(">");
    reveal_strlit("code");
    reveal_strlit("pre");
    lemma_names();
    let none = Seq::<char>::empty();
    let last = "</"@ + "pre"@ + ">"@ + none;
    let ends = "</"@ + "code"@ + ">"@ + last;
    assert("</code></pre>"@ =~= ends);
    lemma_close_read("pre"@, none);
    lemma_close_read("code"@, last);
    lemma_end_read(seq![HtmlEvent::Close("pre"@)]);
    assert(seq![HtmlEvent::Close("code"@)] + seq![HtmlEvent::Close("pre"@)] =~= seq![
        HtmlEvent::Close("code"@),
        HtmlEvent::Close("pre"@),
    ]);
    law_escaped_text_reads_back(code, ends);
}

proof fn lemma_code_head(language: Seq<char>, rest: Seq<char>)
    ensures
        language.len() == 0 ==> html_read("<pre><code>"@ + rest) == seq![
            opened("pre"@),
            opened("code"@),
        ] + html_read(rest),
        html_read("<pre><code class=\"language-"@ + escaped(language) + "\">"@ + rest) == seq![
            opened("pre"@),
            opened_with("code"@, "class"@, "language-"@ + language),
        ] + html_read(rest),
{
    reveal_strlit("<pre><code>");
    reveal_strlit("<pre><code class=\"language-");
    reveal_strlit("language-");
    reveal_strlit("<");
    reveal_strlit(">");
    reveal_strlit(" ");
    reveal_strlit("=\"");
    reveal_strlit("code");
    reveal_strlit("pre");
    reveal_strlit("class");
    lemma_names();
    let plain = "<"@ + "code"@ + ">"@ + rest;
    lemma_plain_open_read("code"@, rest);
    lemma_plain_open_read("pre"@, plain);
    assert("<pre><code>"@ + rest =~= "<"@ + "pre"@ + ">"@ + plain);
    assert(seq![opened("pre"@)] + (seq![opened("code"@)] + html_read(rest)) =~= seq![
        opened("pre"@),
        opened("code"@),
    ] + html_read(rest));
    let value = "language-"@ + language;
    lemma_escaped_joined("language-"@, language);
    law_escape_keeps_plain_text("language-"@);
    let classed = "<"@ + "code"@ + " "@ + "class"@ + "=\""@ + escaped(value) + "\">"@ + rest;
    lemma_open_with_read("code"@, "class"@, value, rest);
    lemma_plain_open_read("pre"@, classed);
    assert("<pre><code class=\"language-"@ + escaped(language) + "\">"@ + rest =~= "<"@ + "pre"@
        + ">"@ + classed);
    let open = opened_with("code"@, "class"@, value);
    assert(seq![opened("pre"@)] + (seq![open] + html_read(rest)) =~= seq![opened("pre"@), open]
        + html_read(rest));
}

/// A code block reads as its language and its text, character by character.
pub proof fn law_code_block_reads_back(language: Seq<char>, code: Seq<char>)
    ensures
        html_read(code_html(language, code)) == code_events(language, code),
{
    reveal_strlit("");
    let tail = escaped(code) + "</code></pre>"@;
    lemma_code_tail(code);
    lemma_code_head(language, tail);
    lemma_code_text(language, code);
    assert(html_read(code_html(language, code)) =~= code_events(language, code));
}

proof fn lemma_code_text(language: Seq<char>, code: Seq<char>)
    ensures
        code_html(language, code) == (if language.len() == 0 {
            "<pre><code>"@
        } else {
            "<pre><code class=\"language-"@ + escaped(language) + "\">"@
        }) + (escaped(code) + "</code></pre>"@),
{
    reveal_strlit("");
    reveal_strlit("<pre><code>");
    reveal_strlit("<pre><code");
    reveal_strlit(" class=\"language-");
    reveal_strlit("<pre><code class=\"language-");
    reveal_strlit("\"");
    reveal_strlit(">");
    reveal_strlit("\">");
    if language.len() == 0 {
        assert("<pre><code"@ + ""@ + ">"@ =~= "<pre><code>"@);
        assert(code_html(language, code) =~= "<pre><code>"@ + (escaped(code) + "</code></pre>"@));
    } else {
        assert("<pre><code"@ + " class=\"language-"@ =~= "<pre><code class=\"language-"@);
        assert("\""@ + ">"@ =~= "\">"@);
        assert(code_html(language, code) =~= ("<pre><code"@ + " class=\"language-"@) + escaped(
            language,
        ) + ("\""@ + ">"@) + (escaped(code) + "</code></pre>"@));
    }
}

/// The source of a diagram reads as a code block in the language `plantuml`.
pub proof fn law_source_reads_back(source: Seq<char>)
    ensures
        html_read(source_html(source)) == code_events("plantuml"@, source),
{
    reveal_strlit("plantuml");
    reveal_strlit("<pre><code class=\"language-plantuml\">");
    reveal_strlit("<pre><code class=\"language-");
    reveal_strlit("\">");
    law_escape_keeps_plain_text("plantuml"@);
    let tail = escaped(source) + "</code></pre>"@;
    lemma_code_tail(source);
    lemma_code_head("plantuml"@, tail);
    assert("<pre><code class=\"language-plantuml\">"@ =~= "<pre><code class=\"language-"@
        + "plantuml"@ + "\">"@);
    assert(source_html(source) =~= "<pre><code class=\"language-plantuml\">"@ + tail);
    assert(html_read(source_html(source)) =~= code_events("plantuml"@, source));
}

// ── Links ──────────────────────────────────────────────────────────

/// What a reader finds in a link.
pub open spec fn link_events(href: Seq<char>, text: Seq<char>) -> Seq<HtmlEvent> {
    seq![opened_with("a"@, "href"@, href)] + letters(text) + seq![HtmlEvent::Close("a"@)]
}

proof fn lemma_link_read(href: Seq<char>, text: Seq<char>)
    ensures
        html_read("<a href=\""@ + escaped(href) + "\">"@ + escaped(text) + "</a>"@) == link_events(
            href,
            text,
        ),
{
    reveal_strlit("<a href=\"");
    reveal_strlit("</a>");
    reveal_strlit("<");
    reveal_strlit(">");
    reveal_strlit(" ");
    reveal_strlit("=\"");
    reveal_strlit("</");
    reveal_strlit("a");
    reveal_strlit("href");
    lemma_names();
    let none = Seq::<char>::empty();
    let end = "</"@ + "a"@ + ">"@ + none;
    assert("</a>"@ =~= end);
    lemma_close_read("a"@, none);
    lemma_end_read(seq![HtmlEvent::Close("a"@)]);
    law_escaped_text_reads_back(text, end);
    lemma_open_with_read("a"@, "href"@, href, escaped(text) + end);
    assert("<a href=\""@ =~= "<"@ + "a"@ + " "@ + "href"@ + "=\""@);
    assert("<a href=\""@ + escaped(href) + "\">"@ + escaped(text) + "</a>"@ =~= "<"@ + "a"@ + " "@
        + "href"@ + "=\""@ + escaped(href) + "\">"@ + (escaped(text) + end));
    assert(html_read("<a href=\""@ + escaped(href) + "\">"@ + escaped(text) + "</a>"@)
        =~= link_events(href, text));
}

/// The link to an issue leads to the issue's address and shows its key.
pub proof fn law_issue_link_reads_back(key: Seq<char>, href: Seq<char>)
    ensures
        html_read(issue_link(key, href)) == link_events(href, key),
{
    lemma_link_read(href, key);
}

/// A link to a Google Drive file leads to its address; where a link stands
/// already, or no address is known, only the text is left.
pub proof fn law_gdrive_link_reads_back(url: Seq<char>, in_anchor: bool)
    ensures
        html_read(gdrive_html(url, in_anchor)) == if in_anchor || url.len() == 0 {
            letters("Google Drive Link"@)
        } else {
            link_events(url, "Google Drive Link"@)
        },
{
    reveal_strlit("Google Drive Link");
    let text = "Google Drive Link"@;
    law_escape_keeps_plain_text(text);
    lemma_link_read(url, text);
    lemma_plain_read(text, Seq::empty());
    lemma_end_read(letters(text));
    assert(text + Seq::<char>::empty() =~= text);
}

/// The link of a rendered issue leads to the address that its HTML gives, and
/// shows the declared key; where that is missing or blank, the text of the
/// link. There is none without an address or a key.
pub proof fn law_rendered_issue_reads_back(
    href: Seq<char>,
    declared: Option<Seq<char>>,
    link_text: Seq<char>,
)
    ensures
        ({
            let address = attribute_decoded(href);
            let shown = stripped(link_text);
            let link = rendered_link(href, declared, link_text);
            match declared {
                Some(k) if trimmed(attribute_decoded(k), white()).len() > 0 => {
                    if address.len() > 0 {
                        link is Some && html_read(link->0) == link_events(
                            address,
                            attribute_decoded(k),
                        )
                    } else {
                        link is None
                    }
                },
                _ => {
                    if address.len() > 0 && shown.len() > 0 {
                        link is Some && html_read(link->0) == link_events(address, shown)
                    } else {
                        link is None
                    }
                },
            }
        }),
{
    let address = attribute_decoded(href);
    law_issue_link_reads_back(stripped(link_text), address);
    lemma_trimmed_of_nothing();
    if let Some(k) = declared {
        let key = attribute_decoded(k);
        law_issue_link_reads_back(key, address);
        if key.len() == 0 {
            assert(key =~= Seq::empty());
        }
    }
}

proof fn lemma_trimmed_of_nothing()
    ensures
        trimmed(Seq::<char>::empty(), white()).len() == 0,
{
}

/// The browse address of an issue's address is followed there by the key, at
/// the first place where it can be.
pub proof fn law_browse_base_leads_to_the_issue(before: Seq<char>, key: Seq<char>, after: Seq<char>)
    requires
        forall|i: int|
            0 <= i < before.len() ==> !#[trigger] occurs_at(
                before + "/browse/"@ + key + after,
                "/browse/"@ + key,
                i,
            ),
    ensures
        browse_base(before + "/browse/"@ + key + after, key) == Some(before + "/browse"@),
{
    reveal_strlit("/browse/");
    reveal_strlit("/browse");
    let href = before + "/browse/"@ + key + after;
    let needle = "/browse/"@ + key;
    let n = before.len() as int;
    assert(href.subrange(n, n + needle.len()) =~= needle);
    assert(occurs_at(href, needle, n));
    lemma_index_from(href, needle, 0);
    assert(index_from(href, needle, 0) == Some(n));
    assert(href.subrange(0, n + 7) =~= before + "/browse"@);
}

/// A position stands inside an anchor exactly where an anchor opens before it
/// and none is closed behind that place.
pub proof fn law_inside_anchor(t: Seq<char>, at: int)
    ensures
        inside_anchor(t, at) <==> exists|open: int|
            #[trigger] occurs_at(t.take(at), "<a "@, open) && forall|close: int|
                #[trigger] occurs_at(t.take(at), "</a>"@, close) ==> close < open,
{
    let before = t.take(at);
    let opens = last_index(before, "<a "@);
    let closes = last_index(before, "</a>"@);
    lemma_last_index_from(before, "<a "@, before.len() - "<a "@.len());
    lemma_last_index_from(before, "</a>"@, before.len() - "</a>"@.len());
    if inside_anchor(t, at) {
        let open = opens->0;
        assert(occurs_at(before, "<a "@, open));
        assert forall|close: int| #[trigger] occurs_at(before, "</a>"@, close) implies close
            < open by {
            assert(closes is Some && close <= closes->0);
        }
    }
    if exists|open: int|
        #[trigger] occurs_at(before, "<a "@, open) && forall|close: int|
            #[trigger] occurs_at(before, "</a>"@, close) ==> close < open {
        let open = choose|open: int|
            #[trigger] occurs_at(before, "<a "@, open) && forall|close: int|
                #[trigger] occurs_at(before, "</a>"@, close) ==> close < open;
        assert(opens is Some && open <= opens->0);
        if closes is Some {
            assert(occurs_at(before, "</a>"@, closes->0));
        }
    }
}

// ── Images ─────────────────────────────────────────────────────────

/// The block that shows the source of a diagram.
pub open spec fn source_block(source: Seq<char>) -> Seq<char> {
    "<pre><code class=\"language-plantuml\">"@ + escaped(source) + "</code></pre>"@
}

/// Each image of a PlantUML diagram becomes the source of the same number, and
/// all else stays: the page is its parts with the images between them, and
/// becomes the same parts with the blocks of the sources between them, each
/// source once and in order. An image beyond the last source goes.
pub proof fn law_each_image_becomes_its_source(html: Seq<char>, sources: Seq<Seq<char>>)
    requires
        well_placed(html.len(), all_matches(PLANTUML_IMAGE@, html)),
        sources.len() > 0,
    ensures
        ({
            let ms = all_matches(PLANTUML_IMAGE@, html);
            let parts = parts_between(html, whole_spans(ms));
            &&& html == woven_from(parts, Seq::new(ms.len(), |k: int| whole_text(html, ms[k])), 0)
            &&& images_as_code(html, sources) == woven_from(
                parts,
                Seq::new(
                    ms.len(),
                    |k: int|
                        if k < sources.len() {
                            source_block(sources[k])
                        } else {
                            Seq::empty()
                        },
                ),
                0,
            )
            &&& ms.len() == sources.len() ==> images_as_code(html, sources) == woven_from(
                parts,
                Seq::new(sources.len(), |k: int| source_block(sources[k])),
                0,
            )
        }),
{
    let ms = all_matches(PLANTUML_IMAGE@, html);
    let g = source_rewriting(sources);
    law_rewriting_by_number_keeps_order(PLANTUML_IMAGE@, html, g);
    let fills = Seq::new(
        ms.len(),
        |k: int|
            if k < sources.len() {
                source_block(sources[k])
            } else {
                Seq::empty()
            },
    );
    assert(Seq::new(ms.len(), |k: int| g(k, html, ms[k])) =~= fills);
    if ms.len() == sources.len() {
        assert(fills =~= Seq::new(sources.len(), |k: int| source_block(sources[k])));
    }
}

/// A page is left as it is where there are no sources.
pub proof fn law_no_sources_no_change(html: Seq<char>)
    ensures
        images_as_code(html, Seq::empty()) == html,
{
}

/// The paragraph that shows an image of a diagram.
pub open spec fn image_block(path: Seq<char>) -> Seq<char> {
    "<p><img src=\""@ + path + "\" alt=\"draw.io diagram\" /></p>"@
}

/// Whether a text can stand in an attribute as it is.
pub open spec fn is_plain_value(t: Seq<char>) -> bool {
    forall|i: int| 0 <= i < t.len() ==> #[trigger] t[i] != '"' && t[i] != '&'
}

/// What a reader finds in an image.
pub open spec fn image_events(src: Seq<char>, alt: Seq<char>) -> Seq<HtmlEvent> {
    seq![
        opened("p"@),
        HtmlEvent::Open("img"@, seq![("src"@, src), ("alt"@, alt)]),
        HtmlEvent::Close("img"@),
        HtmlEvent::Close("p"@),
    ]
}

proof fn lemma_plain_value(t: Seq<char>)
    requires
        is_plain_value(t),
    ensures
        all_valued(t, |c: char| seq![c]),
        blocks(t, |c: char| seq![c]) == t,
{
    let f = |c: char| seq![c];
    lemma_plain_blocks(t);
    assert forall|i: int| 0 <= i < t.len() implies reads_as(f(#[trigger] t[i]), t[i]) && f(t[i])
        != seq!['"'] by {
        assert(f(t[i])[0] == t[i]);
        assert(seq!['"'][0] == '"');
    }
}

/// Two attributes of an image, the first written as it is.
proof fn lemma_image_attributes(src: Seq<char>, alt: Seq<char>, rest: Seq<char>)
    requires
        is_plain_value(src),
    ensures
        attributes_read(" src=\""@ + src + "\" alt=\""@ + escaped(alt) + "\""@ + (" />"@ + rest))
            == (seq![("src"@, src), ("alt"@, alt)], " />"@ + rest),
{
    reveal_strlit(" />");
    reveal_strlit(" src=\"");
    reveal_strlit("\" alt=\"");
    reveal_strlit("\"");
    reveal_strlit(" ");
    reveal_strlit("=\"");
    reveal_strlit("src");
    reveal_strlit("alt");
    lemma_names();
    let f = |c: char| seq![c];
    let tail = " />"@ + rest;
    lemma_plain_value(src);
    assert(ends_tag(tail));
    lemma_no_attributes_read(tail);
    let second = " "@ + "alt"@ + "=\""@ + escaped(alt) + "\""@ + tail;
    law_escaped_value_reads_back("alt"@, alt, tail);
    lemma_attribute_read("src"@, src, f, second);
    assert(" src=\""@ =~= " "@ + "src"@ + "=\""@);
    assert("\" alt=\""@ =~= "\""@ + (" "@ + "alt"@ + "=\""@));
    assert(" src=\""@ + src + "\" alt=\""@ + escaped(alt) + "\""@ + tail =~= " "@ + "src"@ + "=\""@
        + src + "\""@ + second);
    let none = Seq::<(Seq<char>, Seq<char>)>::empty();
    assert(seq![("src"@, src)] + (seq![("alt"@, alt)] + none) =~= seq![("src"@, src), ("alt"@, alt)]);
}

proof fn lemma_image_read(src: Seq<char>, alt: Seq<char>, rest: Seq<char>)
    requires
        is_plain_value(src),
    ensures
        html_read("<p><img src=\""@ + src + "\" alt=\""@ + escaped(alt) + "\" /></p>"@ + rest)
            == image_events(src, alt) + html_read(rest),
{
    let attrs = " src=\""@ + src + "\" alt=\""@ + escaped(alt) + "\""@;
    let close = "</"@ + "p"@ + ">"@ + rest;
    let image = "<"@ + "img"@ + attrs + " />"@ + close;
    lemma_names();
    lemma_image_attributes(src, alt, close);
    assert(attrs + " />"@ + close =~= attrs + (" />"@ + close));
    lemma_close_read("p"@, rest);
    lemma_image_start(src, alt);
    lemma_single_read("img"@, attrs, close);
    lemma_plain_open_read("p"@, image);
    lemma_image_text(src, alt, rest);
    assert(html_read("<p><img src=\""@ + src + "\" alt=\""@ + escaped(alt) + "\" /></p>"@ + rest)
        =~= image_events(src, alt) + html_read(rest));
}

proof fn lemma_image_start(src: Seq<char>, alt: Seq<char>)
    ensures
        (" src=\""@ + src + "\" alt=\""@ + escaped(alt) + "\""@)[0] == ' ',
{
    reveal_strlit(" src=\"");
}

proof fn lemma_image_text(src: Seq<char>, alt: Seq<char>, rest: Seq<char>)
    ensures
        "<p><img src=\""@ + src + "\" alt=\""@ + escaped(alt) + "\" /></p>"@ + rest == "<"@ + "p"@
            + ">"@ + ("<"@ + "img"@ + (" src=\""@ + src + "\" alt=\""@ + escaped(alt) + "\""@)
            + " />"@ + ("</"@ + "p"@ + ">"@ + rest)),
{
    reveal_strlit("<p><img src=\"");
    reveal_strlit("\" /></p>");
    reveal_strlit("<");
    reveal_strlit("p");
    reveal_strlit(">");
    reveal_strlit("img");
    reveal_strlit(" src=\"");
    reveal_strlit("\"");
    reveal_strlit(" />");
    reveal_strlit("</");
    let mid = "\" alt=\""@ + escaped(alt);
    assert("<p><img src=\""@ =~= "<"@ + "p"@ + ">"@ + ("<"@ + "img"@ + " src=\""@));
    assert("\" /></p>"@ =~= "\""@ + (" />"@ + ("</"@ + "p"@ + ">"@)));
    assert("<p><img src=\""@ + src + "\" alt=\""@ + escaped(alt) + "\" /></p>"@ + rest =~= "<"@
        + "p"@ + ">"@ + ("<"@ + "img"@ + (" src=\""@ + src + "\" alt=\""@ + escaped(alt) + "\""@)
        + " />"@ + ("</"@ + "p"@ + ">"@ + rest)));
}

/// The image of a diagram reads as an image of its path.
pub proof fn law_diagram_image_reads_back(path: Seq<char>)
    requires
        is_plain_value(path),
    ensures
        html_read(diagram_image(path)) == image_events(path, "draw.io diagram"@),
{
    reveal_strlit("draw.io diagram");
    reveal_strlit("\" alt=\"draw.io diagram\" /></p>");
    reveal_strlit("\" alt=\"");
    reveal_strlit("\" /></p>");
    let none = Seq::<char>::empty();
    let alt = "draw.io diagram"@;
    law_escape_keeps_plain_text(alt);
    lemma_image_read(path, alt, none);
    lemma_end_read(image_events(path, alt));
    assert("\" alt=\"draw.io diagram\" /></p>"@ =~= "\" alt=\""@ + alt + "\" /></p>"@);
    assert(diagram_image(path) =~= "<p><img src=\""@ + path + "\" alt=\""@ + alt + "\" /></p>"@
        + none);
}

/// What a reader finds in the block of a diagram at the end of a page: its
/// label, where it has one, and its image. The text of the image is its own,
/// else the label, else `diagram`.
pub open spec fn fallback_events(path: Seq<char>, label: Seq<char>, alt: Seq<char>) -> Seq<
    HtmlEvent,
> {
    let text = if alt.len() > 0 {
        alt
    } else if label.len() > 0 {
        label
    } else {
        "diagram"@
    };
    let caption = if label.len() > 0 {
        seq![opened("p"@)] + letters(label) + seq![HtmlEvent::Close("p"@)]
    } else {
        Seq::empty()
    };
    seq![opened_with("div"@, "class"@, "confluence2md-fallback-diagram"@)] + letters("\n"@) + caption
        + letters("\n"@) + image_events(path, text) + letters("\n"@) + seq![
        HtmlEvent::Close("div"@),
    ]
}

proof fn lemma_line_feed_read(rest: Seq<char>)
    ensures
        html_read("\n"@ + rest) == letters("\n"@) + html_read(rest),
{
    reveal_strlit("\n");
    lemma_plain_read("\n"@, rest);
}

/// The image of a block and what follows it.
proof fn lemma_fallback_image(path: Seq<char>, text: Seq<char>)
    requires
        is_plain_value(path),
    ensures
        html_read(
            "\n<p><img src=\""@ + path + "\" alt=\""@ + escaped(text) + "\" /></p>\n</div>"@,
        ) == letters("\n"@) + image_events(path, text) + letters("\n"@) + seq![
            HtmlEvent::Close("div"@),
        ],
{
    reveal_strlit("\n<p><img src=\"");
    reveal_strlit("<p><img src=\"");
    reveal_strlit("\" /></p>\n</div>");
    reveal_strlit("\" /></p>");
    reveal_strlit("\n");
    reveal_strlit("</");
    reveal_strlit("div");
    reveal_strlit(">");
    let none = Seq::<char>::empty();
    let close = "</"@ + "div"@ + ">"@ + none;
    let tail = "\n"@ + close;
    let mid = path + "\" alt=\""@ + escaped(text);
    let image = "<p><img src=\""@ + path + "\" alt=\""@ + escaped(text) + "\" /></p>"@ + tail;
    lemma_names();
    lemma_close_read("div"@, none);
    lemma_end_read(seq![HtmlEvent::Close("div"@)]);
    lemma_line_feed_read(close);
    lemma_image_read(path, text, tail);
    lemma_line_feed_read(image);
    assert("\n<p><img src=\""@ =~= "\n"@ + "<p><img src=\""@);
    assert("\" /></p>\n</div>"@ =~= "\" /></p>"@ + tail);
    assert("\n<p><img src=\""@ + path + "\" alt=\""@ + escaped(text) + "\" /></p>\n</div>"@
        =~= "\n"@ + image);
    let feed = letters("\n"@);
    let last = seq![HtmlEvent::Close("div"@)];
    assert(feed + (image_events(path, text) + (feed + last)) =~= feed + image_events(path, text)
        + feed + last);
}

/// The label of a block and what follows it.
proof fn lemma_fallback_caption(label: Seq<char>, rest: Seq<char>)
    ensures
        html_read("<p>"@ + escaped(label) + "</p>"@ + rest) == seq![opened("p"@)] + letters(label)
            + seq![HtmlEvent::Close("p"@)] + html_read(rest),
{
    reveal_strlit("<p>");
    reveal_strlit("</p>");
    reveal_strlit("<");
    reveal_strlit("</");
    reveal_strlit("p");
    reveal_strlit(">");
    lemma_names();
    let close = "</"@ + "p"@ + ">"@ + rest;
    lemma_close_read("p"@, rest);
    law_escaped_text_reads_back(label, close);
    lemma_plain_open_read("p"@, escaped(label) + close);
    assert("<p>"@ =~= "<"@ + "p"@ + ">"@);
    assert("</p>"@ =~= "</"@ + "p"@ + ">"@);
    assert("<p>"@ + escaped(label) + "</p>"@ + rest =~= "<"@ + "p"@ + ">"@ + (escaped(label) + close));
    let open = seq![opened("p"@)];
    let last = seq![HtmlEvent::Close("p"@)];
    assert(open + (letters(label) + (last + html_read(rest))) =~= open + letters(label) + last
        + html_read(rest));
}

proof fn lemma_fallback_head(rest: Seq<char>)
    ensures
        html_read("<div class=\"confluence2md-fallback-diagram\">\n"@ + rest) == seq![
            opened_with("div"@, "class"@, "confluence2md-fallback-diagram"@),
        ] + letters("\n"@) + html_read(rest),
{
    reveal_strlit("<div class=\"confluence2md-fallback-diagram\">\n");
    reveal_strlit("confluence2md-fallback-diagram");
    reveal_strlit("<");
    reveal_strlit("div");
    reveal_strlit(" ");
    reveal_strlit("class");
    reveal_strlit("=\"");
    reveal_strlit("\">");
    reveal_strlit("\n");
    lemma_names();
    let class = "confluence2md-fallback-diagram"@;
    let tail = "\n"@ + rest;
    law_escape_keeps_plain_text(class);
    lemma_line_feed_read(rest);
    lemma_open_with_read("div"@, "class"@, class, tail);
    assert("<div class=\"confluence2md-fallback-diagram\">\n"@ =~= "<"@ + "div"@ + " "@ + "class"@
        + "=\""@ + class + "\">"@ + "\n"@);
    assert("<div class=\"confluence2md-fallback-diagram\">\n"@ + rest =~= "<"@ + "div"@ + " "@
        + "class"@ + "=\""@ + class + "\">"@ + tail);
    let open = seq![opened_with("div"@, "class"@, class)];
    assert(open + (letters("\n"@) + html_read(rest)) =~= open + letters("\n"@) + html_read(rest));
}

/// The block of a diagram at the end of a page shows its label and its image.
pub proof fn law_fallback_block_reads_back(d: FallbackDiagram)
    requires
        is_plain_value(d.local_path@),
    ensures
        html_read(fallback_block(d)) == fallback_events(d.local_path@, d.label@, d.alt@),
{
    let path = d.local_path@;
    let label = d.label@;
    let text = if d.alt@.len() > 0 {
        d.alt@
    } else if label.len() > 0 {
        label
    } else {
        "diagram"@
    };
    let image = "\n<p><img src=\""@ + path + "\" alt=\""@ + escaped(text)
        + "\" /></p>\n</div>"@;
    let caption = if label.len() == 0 {
        Seq::empty()
    } else {
        "<p>"@ + escaped(label) + "</p>"@
    };
    lemma_fallback_image(path, text);
    lemma_fallback_caption(label, image);
    lemma_fallback_head(caption + image);
    let head = "<div class=\"confluence2md-fallback-diagram\">\n"@;
    assert(fallback_block(d) =~= head + (caption + image));
    if label.len() == 0 {
        assert(caption + image =~= image);
    }
    assert(html_read(fallback_block(d)) =~= fallback_events(path, label, d.alt@));
}

/// Each diagram script becomes an image of the path of the same number, and
/// all else stays; read from left to right, the paths of the images are the
/// given paths in their order. A script beyond the last path goes.
pub proof fn law_each_script_becomes_its_image(html: Seq<char>, paths: Seq<Seq<char>>)
    requires
        well_placed(html.len(), all_matches(DRAWIO_SCRIPT@, html)),
        paths.len() > 0,
    ensures
        ({
            let ms = all_matches(DRAWIO_SCRIPT@, html);
            let parts = parts_between(html, whole_spans(ms));
            &&& html == woven_from(parts, Seq::new(ms.len(), |k: int| whole_text(html, ms[k])), 0)
            &&& scripts_replaced(html, paths) == woven_from(
                parts,
                Seq::new(
                    ms.len(),
                    |k: int|
                        if k < paths.len() {
                            image_block(paths[k])
                        } else {
                            Seq::empty()
                        },
                ),
                0,
            )
            &&& ms.len() == paths.len() ==> scripts_replaced(html, paths) == woven_from(
                parts,
                Seq::new(paths.len(), |k: int| image_block(paths[k])),
                0,
            )
        }),
{
    let ms = all_matches(DRAWIO_SCRIPT@, html);
    let g = script_rewriting(paths);
    law_rewriting_by_number_keeps_order(DRAWIO_SCRIPT@, html, g);
    let fills = Seq::new(
        ms.len(),
        |k: int|
            if k < paths.len() {
                image_block(paths[k])
            } else {
                Seq::empty()
            },
    );
    assert(Seq::new(ms.len(), |k: int| g(k, html, ms[k])) =~= fills);
    if ms.len() == paths.len() {
        assert(fills =~= Seq::new(paths.len(), |k: int| image_block(paths[k])));
    }
}

/// A page is left as it is where there are no paths.
pub proof fn law_no_paths_no_change(html: Seq<char>)
    ensures
        scripts_replaced(html, Seq::empty()) == html,
        images_replaced(html, Seq::empty()) == html,
{
}

/// Each rendered diagram shows the path of the same number as its source; the
/// rest of its tag and of the page stays. A diagram beyond the last path, or
/// one whose quotation marks differ, stays as it is.
pub proof fn law_each_diagram_shows_its_path(html: Seq<char>, paths: Seq<Seq<char>>)
    requires
        well_placed(html.len(), all_matches(DRAWIO_IMAGE@, html)),
        html.len() > 0,
        paths.len() > 0,
    ensures
        ({
            let ms = all_matches(DRAWIO_IMAGE@, html);
            let parts = parts_between(html, whole_spans(ms));
            &&& html == woven_from(parts, Seq::new(ms.len(), |k: int| whole_text(html, ms[k])), 0)
            &&& images_replaced(html, paths) == woven_from(
                parts,
                Seq::new(
                    ms.len(),
                    |k: int|
                        if k < paths.len() && group_text(html, ms[k], 2) == group_text(
                            html,
                            ms[k],
                            4,
                        ) {
                            group_text(html, ms[k], 1) + group_text(html, ms[k], 2) + paths[k]
                                + group_text(html, ms[k], 2) + group_text(html, ms[k], 5)
                        } else {
                            whole_text(html, ms[k])
                        },
                ),
                0,
            )
        }),
{
    let ms = all_matches(DRAWIO_IMAGE@, html);
    let g = image_rewriting(paths);
    law_rewriting_by_number_keeps_order(DRAWIO_IMAGE@, html, g);
    let fills = Seq::new(
        ms.len(),
        |k: int|
            if k < paths.len() && group_text(html, ms[k], 2) == group_text(html, ms[k], 4) {
                group_text(html, ms[k], 1) + group_text(html, ms[k], 2) + paths[k] + group_text(
                    html,
                    ms[k],
                    2,
                ) + group_text(html, ms[k], 5)
            } else {
                whole_text(html, ms[k])
            },
    );
    assert(Seq::new(ms.len(), |k: int| g(k, html, ms[k])) =~= fills);
}

// ── Tasks ──────────────────────────────────────────────────────────

/// The list item of a task, without its check box, is the item as it was
/// written: its opening tag and its body, character by character. Where the
/// body shows no text, only the check box is left.
pub proof fn law_task_item_keeps_its_body(attrs: Seq<char>, checked: bool, body: Seq<char>)
    ensures
        ({
            let item = task_item_html(attrs, checked, body);
            let open = "<li"@ + attrs + ">"@;
            let n = open.len() as int;
            &&& item.len() >= n + 8
            &&& item.take(n) == open
            &&& item[n] == '['
            &&& item[n + 1] == if checked {
                'x'
            } else {
                ' '
            }
            &&& item[n + 2] == ']'
            &&& !is_blank(body) ==> item[n + 3] == ' ' && item.take(n) + item.skip(n + 4) == open
                + body + "</li>"@
            &&& is_blank(body) ==> item.take(n) + item.skip(n + 3) == open + "</li>"@
        }),
{
    reveal_strlit("[x]");
    reveal_strlit("[ ]");
    reveal_strlit(" ");
    reveal_strlit("</li>");
    let item = task_item_html(attrs, checked, body);
    let open = "<li"@ + attrs + ">"@;
    let n = open.len() as int;
    let marker = if checked {
        "[x]"@
    } else {
        "[ ]"@
    };
    if is_blank(body) {
        assert(item =~= open + marker + "</li>"@);
        assert(item.take(n) =~= open);
        assert(item.take(n) + item.skip(n + 3) =~= open + "</li>"@);
    } else {
        assert(item =~= open + marker + " "@ + body + "</li>"@);
        assert(item.take(n) =~= open);
        assert(item.take(n) + item.skip(n + 4) =~= open + body + "</li>"@);
    }
    assert(item[n] == marker[0]);
    assert(item[n + 1] == marker[1]);
    assert(item[n + 2] == marker[2]);
}

/// A finished task and an unfinished one differ in the mark of the check box
/// and nowhere else.
pub proof fn law_check_box_is_the_only_difference(attrs: Seq<char>, body: Seq<char>, i: int)
    requires
        0 <= i < task_item_html(attrs, true, body).len(),
        i != ("<li"@ + attrs + ">["@).len(),
    ensures
        task_item_html(attrs, true, body).len() == task_item_html(attrs, false, body).len(),
        task_item_html(attrs, true, body)[i] == task_item_html(attrs, false, body)[i],
{
    reveal_strlit("[x]");
    reveal_strlit("[ ]");
    reveal_strlit(">");
    reveal_strlit(">[");
    let open = "<li"@ + attrs + ">"@;
    let tail = if is_blank(body) {
        "</li>"@
    } else {
        " "@ + body + "</li>"@
    };
    assert(task_item_html(attrs, true, body) =~= open + "[x]"@ + tail);
    assert(task_item_html(attrs, false, body) =~= open + "[ ]"@ + tail);
}

} // verus!
