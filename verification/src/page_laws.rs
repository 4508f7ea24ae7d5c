//! What is kept of links, names and addresses, and how a document is put
//! together.

use vstd::prelude::*;
use vstd::utf8::{decode_utf8, encode_utf8};

use crate::export_html::woven_from;
use crate::export_laws::lemma_nothing_replaced;
use crate::headings::{
    anchor_html, anchor_rewriting, headings_linked, page_slugs, slug_char, slug_chars,
    ANCHOR_DOUBLE, ANCHOR_SINGLE,
};
use crate::html_laws::lemma_names;
use crate::macros::{preprocessed, task_statuses, with_task_statuses};
use crate::names::{
    asset_path, extension, extension_dot, file_name, file_stem, is_free_name, last_named, numbered,
    parent_dir, without_tail,
};
use crate::page::{document, link_rewriting, prepared, resolved_link, LINK};
use crate::pattern::{
    all_matches, group_text, law_rewriting_nothing, law_rewriting_replaces_every_match,
    parts_between, rewritten, well_placed, whole_spans, whole_text,
};
use crate::percent::{law_percent_round_trip, percent_decoded_bytes, COMPONENT_MARKS};
use crate::reading::{html_read, lemma_end_read, lemma_open_with_read, opened_with};
use crate::text::{
    but, decimal, has_prefix, has_suffix, index_from, is_white_space, last_index, lemma_index_from,
    lemma_last_index_from, lemma_skip, occurs_at, occurs_in, only, pieces, skip, trimmed_end,
    trimmed_start, unicode_alphanumeric,
};
use crate::utils::{attribute_decoded, escaped};
use crate::web::{resolution, resolved, rooted, url_read, UrlModel};

verus! {

// ── Links to headings ──────────────────────────────────────────────

/// A link to a heading leads to the heading's slug, and keeps the attributes
/// before and behind its address.
pub proof fn law_heading_link_keeps_its_attributes(
    before: Seq<char>,
    id: Seq<char>,
    after: Seq<char>,
    quote: char,
    slugs: Map<Seq<char>, Seq<char>>,
)
    requires
        id.len() == 0 || id[0] != '#',
        slugs.contains_key(attribute_decoded(id)),
    ensures
        ({
            let original = "<a"@ + before + "href="@ + seq![quote] + ("#"@ + id) + seq![quote] + after
                + ">"@;
            let link = anchor_html(original, before, "#"@ + id, after, quote, slugs);
            let n: int = ("<a"@ + before + "href="@).len() + 2int;
            let slug = escaped(slugs[attribute_decoded(id)]);
            &&& link.take(n) == original.take(n)
            &&& link.skip(n + slug.len()) == original.skip(n + id.len())
            &&& link.subrange(n, n + slug.len()) == slug
        }),
{
    reveal_strlit("#");
    let open = "<a"@ + before + "href="@ + seq![quote] + "#"@;
    let close = seq![quote] + after + ">"@;
    let slug = escaped(slugs[attribute_decoded(id)]);
    let original = "<a"@ + before + "href="@ + seq![quote] + ("#"@ + id) + seq![quote] + after
        + ">"@;
    let link = anchor_html(original, before, "#"@ + id, after, quote, slugs);
    let href = "#"@ + id;
    let n = open.len() as int;
    assert(trimmed_start(href, only('#')) == id) by {
        reveal_with_fuel(skip, 2);
        assert(href[0] == '#');
        if id.len() > 0 {
            assert(href[1] == id[0]);
        }
        assert(skip(href, only('#'), 0) == 1);
        assert(href.subrange(1, href.len() as int) =~= id);
    }
    assert(original =~= open + id + close);
    assert(link =~= open + slug + close);
    assert(link.take(n) =~= open);
    assert(original.take(n) =~= open);
    assert(link.skip(n + slug.len()) =~= close);
    assert(original.skip(n + id.len()) =~= close);
    assert(link.subrange(n, n + slug.len()) =~= slug);
}

/// A link that leads to no heading of the page stays as it is.
pub proof fn law_other_links_stay(
    original: Seq<char>,
    before: Seq<char>,
    href: Seq<char>,
    after: Seq<char>,
    quote: char,
    slugs: Map<Seq<char>, Seq<char>>,
)
    requires
        !slugs.contains_key(attribute_decoded(trimmed_start(href, only('#')))),
    ensures
        anchor_html(original, before, href, after, quote, slugs) == original,
{
}

/// Every link into the page is looked at, first those in double quotes and
/// then those in single quotes, and all else stays.
pub proof fn law_every_heading_link_is_rewritten(t: Seq<char>)
    requires
        page_slugs(t) != Map::<Seq<char>, Seq<char>>::empty(),
        well_placed(t.len(), all_matches(ANCHOR_DOUBLE@, t)),
    ensures
        ({
            let ms = all_matches(ANCHOR_DOUBLE@, t);
            let fills = Seq::new(
                ms.len(),
                |k: int|
                    anchor_html(
                        whole_text(t, ms[k]),
                        group_text(t, ms[k], 1),
                        group_text(t, ms[k], 2),
                        group_text(t, ms[k], 3),
                        '"',
                        page_slugs(t),
                    ),
            );
            let u = woven_from(parts_between(t, whole_spans(ms)), fills, 0);
            let ns = all_matches(ANCHOR_SINGLE@, u);
            &&& t == woven_from(
                parts_between(t, whole_spans(ms)),
                Seq::new(ms.len(), |k: int| whole_text(t, ms[k])),
                0,
            )
            &&& well_placed(u.len(), ns) ==> headings_linked(t) == woven_from(
                parts_between(u, whole_spans(ns)),
                Seq::new(
                    ns.len(),
                    |k: int|
                        anchor_html(
                            whole_text(u, ns[k]),
                            group_text(u, ns[k], 1),
                            group_text(u, ns[k], 2),
                            group_text(u, ns[k], 3),
                            '\'',
                            page_slugs(t),
                        ),
                ),
                0,
            )
        }),
{
    let slugs = page_slugs(t);
    let ms = all_matches(ANCHOR_DOUBLE@, t);
    let g = anchor_rewriting('"', slugs);
    law_rewriting_replaces_every_match(ANCHOR_DOUBLE@, t, g);
    let fills = Seq::new(
        ms.len(),
        |k: int|
            anchor_html(
                whole_text(t, ms[k]),
                group_text(t, ms[k], 1),
                group_text(t, ms[k], 2),
                group_text(t, ms[k], 3),
                '"',
                slugs,
            ),
    );
    assert(Seq::new(ms.len(), |k: int| g(t, ms[k])) =~= fills);
    let u = rewritten(ANCHOR_DOUBLE@, t, g);
    let ns = all_matches(ANCHOR_SINGLE@, u);
    let h = anchor_rewriting('\'', slugs);
    if well_placed(u.len(), ns) {
        law_rewriting_replaces_every_match(ANCHOR_SINGLE@, u, h);
        assert(Seq::new(ns.len(), |k: int| h(u, ns[k])) =~= Seq::new(
            ns.len(),
            |k: int|
                anchor_html(
                    whole_text(u, ns[k]),
                    group_text(u, ns[k], 1),
                    group_text(u, ns[k], 2),
                    group_text(u, ns[k], 3),
                    '\'',
                    slugs,
                ),
        ));
    }
}

proof fn lemma_slug_chars_joined(a: Seq<char>, b: Seq<char>)
    ensures
        slug_chars(a + b) == slug_chars(a) + slug_chars(b),
    decreases b.len(),
{
    if b.len() == 0 {
        assert(a + b =~= a);
        assert(slug_chars(a) + slug_chars(b) =~= slug_chars(a));
    } else {
        lemma_slug_chars_joined(a, b.drop_last());
        assert((a + b).drop_last() =~= a + b.drop_last());
        assert(slug_chars(a + b) =~= slug_chars(a) + slug_chars(b));
    }
}

/// A slug is made character by character: letters, numbers, `_` and `-` stay,
/// white space becomes `-`, and all else goes.
pub proof fn law_slug_is_made_by_character(a: Seq<char>, c: char, b: Seq<char>)
    ensures
        slug_chars(a + seq![c] + b) == slug_chars(a) + (if unicode_alphanumeric(c) || c
            == '_' || c == '-' {
            seq![c]
        } else if is_white_space(c) {
            seq!['-']
        } else {
            Seq::empty()
        }) + slug_chars(b),
{
    lemma_slug_chars_joined(a + seq![c], b);
    lemma_slug_chars_joined(a, seq![c]);
    assert(seq![c].drop_last() =~= Seq::empty());
    assert(slug_chars(seq![c].drop_last()) =~= Seq::empty());
    assert(slug_chars(seq![c]) =~= slug_char(c));
}

// ── Other links ────────────────────────────────────────────────────

/// A relative link leads to its address on the page's server; any other stays
/// as it is written.
pub proof fn law_relative_link_leads_to_the_server(
    original: Seq<char>,
    quote: Seq<char>,
    href: Seq<char>,
    base_url: Seq<char>,
)
    ensures
        ({
            let link = resolved_link(original, "<a href="@, quote, href, quote, base_url);
            if href.len() > 0 && !has_prefix(href, "#"@) && !has_prefix(href, "//"@) && url_read(
                attribute_decoded(href),
            ) is None {
                html_read(link + ">"@) == seq![
                    opened_with("a"@, "href"@, resolved(href, base_url)),
                ]
            } else {
                link == original
            }
        }),
{
    reveal_strlit("<a href=");
    reveal_strlit("<");
    reveal_strlit("a");
    reveal_strlit(" ");
    reveal_strlit("href");
    reveal_strlit("=\"");
    reveal_strlit("\"");
    reveal_strlit(">");
    reveal_strlit("\">");
    let none = Seq::<char>::empty();
    let address = resolved(href, base_url);
    lemma_names();
    lemma_open_with_read("a"@, "href"@, address, none);
    lemma_end_read(seq![opened_with("a"@, "href"@, address)]);
    assert("<a href="@ + "\""@ =~= "<"@ + "a"@ + " "@ + "href"@ + "=\""@);
    assert("\""@ + ">"@ =~= "\">"@);
    assert("<a href="@ + "\""@ + escaped(address) + "\""@ + ">"@ =~= "<"@ + "a"@ + " "@ + "href"@
        + "=\""@ + escaped(address) + "\">"@ + none);
}

/// What stands before the address of a link stays.
pub proof fn law_link_keeps_what_stands_before(
    before: Seq<char>,
    quote: Seq<char>,
    href: Seq<char>,
    base_url: Seq<char>,
)
    ensures
        has_prefix(
            resolved_link(before + quote + href + quote, before, quote, href, quote, base_url),
            before,
        ),
{
    let link = resolved_link(before + quote + href + quote, before, quote, href, quote, base_url);
    assert(link.subrange(0, before.len() as int) =~= before);
}

/// Every link of a page is looked at, and all else stays.
pub proof fn law_every_link_is_resolved(t: Seq<char>, base_url: Seq<char>)
    requires
        well_placed(t.len(), all_matches(LINK@, t)),
    ensures
        ({
            let ms = all_matches(LINK@, t);
            let parts = parts_between(t, whole_spans(ms));
            &&& t == woven_from(parts, Seq::new(ms.len(), |k: int| whole_text(t, ms[k])), 0)
            &&& rewritten(LINK@, t, link_rewriting(base_url)) == woven_from(
                parts,
                Seq::new(
                    ms.len(),
                    |k: int|
                        resolved_link(
                            whole_text(t, ms[k]),
                            group_text(t, ms[k], 1),
                            group_text(t, ms[k], 2),
                            group_text(t, ms[k], 3),
                            group_text(t, ms[k], 4),
                            base_url,
                        ),
                ),
                0,
            )
        }),
{
    let ms = all_matches(LINK@, t);
    let g = link_rewriting(base_url);
    law_rewriting_replaces_every_match(LINK@, t, g);
    assert(Seq::new(ms.len(), |k: int| g(t, ms[k])) =~= Seq::new(
        ms.len(),
        |k: int|
            resolved_link(
                whole_text(t, ms[k]),
                group_text(t, ms[k], 1),
                group_text(t, ms[k], 2),
                group_text(t, ms[k], 3),
                group_text(t, ms[k], 4),
                base_url,
            ),
    ));
}

/// Storage HTML that tells no status of a task changes nothing.
pub proof fn law_storage_without_tasks_changes_nothing(
    html: Seq<char>,
    storage: Seq<char>,
    base_url: Seq<char>,
)
    requires
        task_statuses(storage) == Map::<Seq<char>, Seq<char>>::empty(),
    ensures
        prepared(html, Some(storage), base_url) == prepared(html, None, base_url),
{
}

/// A page is prepared in steps, each of which shows where the others change
/// nothing: its tasks get their statuses, its macros are rewritten, and its
/// links are resolved.
pub proof fn law_page_is_prepared_in_steps(
    html: Seq<char>,
    storage: Seq<char>,
    base_url: Seq<char>,
)
    ensures
        prepared(html, Some(storage), base_url) == prepared(
            with_task_statuses(html, storage),
            None,
            base_url,
        ),
        all_matches(LINK@, preprocessed(html)).len() == 0 ==> prepared(html, None, base_url)
            == preprocessed(html),
        preprocessed(html) == html ==> prepared(html, None, base_url) == rewritten(
            LINK@,
            html,
            link_rewriting(base_url),
        ),
{
    if all_matches(LINK@, preprocessed(html)).len() == 0 {
        law_rewriting_nothing(LINK@, preprocessed(html), link_rewriting(base_url));
    }
}

// ── Addresses ──────────────────────────────────────────────────────

/// A rooted path stands on the server of the base URL, behind the base's own
/// path and once only: with that path in front it leads to the same place.
pub proof fn law_rooted_path_stands_in_its_context(base: UrlModel, path: Seq<char>)
    requires
        has_prefix(path, "/"@),
    ensures
        has_prefix(rooted(base, path), base.origin()),
        has_suffix(rooted(base, path), path),
        ({
            let context = trimmed_end(base.path, only('/'));
            context.len() > 0 && !has_prefix(path, context + "/"@) ==> rooted(base, path)
                == base.origin() + context + path && rooted(base, context + path) == rooted(
                base,
                path,
            )
        }),
        ({
            let context = trimmed_end(base.path, only('/'));
            context.len() == 0 || has_prefix(path, context + "/"@) ==> rooted(base, path)
                == base.origin() + path
        }),
{
    reveal_strlit("/");
    let context = trimmed_end(base.path, only('/'));
    let r = rooted(base, path);
    assert(r.subrange(0, base.origin().len() as int) =~= base.origin());
    assert(r.subrange(r.len() - path.len(), r.len() as int) =~= path);
    if context.len() > 0 && !has_prefix(path, context + "/"@) {
        let longer = context + path;
        assert(path[0] == path.subrange(0, 1)[0]);
        assert(longer.subrange(0, context.len() + 1int) =~= context + "/"@);
        assert(has_prefix(longer, context + "/"@));
        assert(base.origin() + longer =~= base.origin() + context + path);
    }
}

/// A port is written behind its host; nothing else of an origin changes.
pub proof fn law_port_is_written_behind_the_host(url: UrlModel, host: Seq<char>, port: u16)
    requires
        url.host == Some(host),
        url.port == Some(port),
    ensures
        url.origin() == (UrlModel { port: None, ..url }).origin() + ":"@ + decimal(port as nat),
        has_prefix(url.origin(), url.scheme + "://"@ + host),
{
    let plain = UrlModel { port: None, ..url };
    assert(plain.origin() == url.scheme + "://"@ + host);
    assert(url.origin() =~= plain.origin() + ":"@ + decimal(port as nat));
    let start = url.scheme + "://"@ + host;
    assert(url.origin().subrange(0, start.len() as int) =~= start);
}

/// A reference that is a URL stands for itself, whatever the base. A rooted
/// path goes to the base's server, and any other reference is joined to the
/// base; without a base, a reference stays as it is.
pub proof fn law_reference_is_resolved(
    reference: Seq<char>,
    url: UrlModel,
    base: UrlModel,
    joined: Option<Seq<char>>,
    other: Option<UrlModel>,
)
    ensures
        resolution(reference, Some(url), other, joined) == url.text,
        resolution(reference, None, None, joined) == reference,
        has_prefix(reference, "/"@) ==> resolution(reference, None, Some(base), joined) == rooted(
            base,
            reference,
        ),
        !has_prefix(reference, "/"@) ==> resolution(reference, None, Some(base), joined)
            == match joined {
            Some(u) => u,
            None => reference,
        },
{
}

// ── Documents ──────────────────────────────────────────────────────

/// A document begins with its title as a heading, tells the identifier of its
/// page, and ends with its body. Its address, where there is one, is one more
/// line.
pub proof fn law_document_holds_its_parts(
    title: Seq<char>,
    page_id: Seq<char>,
    url: Seq<char>,
    body: Seq<char>,
)
    ensures
        ({
            let plain = document(title, page_id, None, body);
            let head = "# "@ + title + "\n\n- Confluence Page ID: "@ + page_id + "\n"@;
            &&& has_prefix(plain, head)
            &&& has_suffix(plain, "\n\n---\n\n"@ + body + "\n"@)
            &&& document(title, page_id, Some(url), body) == plain.take(head.len() as int)
                + ("- URL: "@ + url + "\n"@) + plain.skip(head.len() as int)
        }),
{
    reveal_strlit("");
    reveal_strlit("\n\n---\n\n");
    reveal_strlit("- HTML source used for conversion: body.export_view\n\n---\n\n");
    reveal_strlit("- HTML source used for conversion: body.export_view");
    let plain = document(title, page_id, None, body);
    let head = "# "@ + title + "\n\n- Confluence Page ID: "@ + page_id + "\n"@;
    let source = "- HTML source used for conversion: body.export_view\n\n---\n\n"@;
    let tail = source + body + "\n"@;
    let ending = "\n\n---\n\n"@ + body + "\n"@;
    assert(plain =~= head + tail);
    assert(plain.subrange(0, head.len() as int) =~= head);
    assert(source =~= "- HTML source used for conversion: body.export_view"@ + "\n\n---\n\n"@);
    assert(plain =~= head + "- HTML source used for conversion: body.export_view"@ + ending);
    assert(plain.subrange(plain.len() - ending.len(), plain.len() as int) =~= ending);
    assert(plain.take(head.len() as int) =~= head);
    assert(plain.skip(head.len() as int) =~= tail);
    assert(document(title, page_id, Some(url), body) =~= head + ("- URL: "@ + url + "\n"@) + tail);
}

// ── File names ─────────────────────────────────────────────────────

proof fn lemma_flat_name(name: Seq<char>)
    requires
        !name.contains('/'),
        name.len() > 0,
        name != "."@,
        name != ".."@,
    ensures
        file_name(name) == Some(name),
{
    lemma_skip(name, but('/'), 0);
    let j = skip(name, but('/'), 0);
    if j < name.len() {
        assert(!but('/')(name[j]));
        assert(name.contains(name[j]));
    }
    let parts = pieces(name, '/');
    assert(parts[0] =~= name);
    assert(parts.len() == 1);
    reveal_with_fuel(last_named, 2);
}

/// The last place of a character.
proof fn lemma_last_place(t: Seq<char>, p: Seq<char>, i: int)
    requires
        p.len() == 1,
        0 <= i < t.len(),
        t[i] == p[0],
        forall|k: int| i < k < t.len() ==> #[trigger] t[k] != p[0],
    ensures
        last_index(t, p) == Some(i),
{
    lemma_last_index_from(t, p, t.len() - 1);
    assert(t.subrange(i, i + 1) =~= p);
    assert(occurs_at(t, p, i));
    let j = last_index(t, p)->0;
    assert(t.subrange(j, j + 1)[0] == p[0]);
    assert(t[j] == p[0]);
}

proof fn lemma_joined_without(a: Seq<char>, x: char, b: Seq<char>, c: char)
    requires
        !a.contains(c),
        !b.contains(c),
        x != c,
    ensures
        !(a + seq![x] + b).contains(c),
{
    let t = a + seq![x] + b;
    if t.contains(c) {
        let k = choose|k: int| 0 <= k < t.len() && t[k] == c;
        if k < a.len() {
            assert(a.contains(a[k]));
        } else if k > a.len() {
            assert(b.contains(b[k - a.len() - 1]));
        }
    }
}

/// The dot before an extension.
proof fn lemma_extension_dot(stem: Seq<char>, ext: Seq<char>)
    requires
        stem.len() > 0,
        ext.len() > 0,
        !stem.contains('/'),
        !ext.contains('/'),
        !ext.contains('.'),
    ensures
        file_name(stem + "."@ + ext) == Some(stem + "."@ + ext),
        extension_dot(stem + "."@ + ext) == Some(stem.len() as int),
{
    reveal_strlit(".");
    reveal_strlit("..");
    let name = stem + "."@ + ext;
    let dot = stem.len() as int;
    assert("."@ =~= seq!['.']);
    lemma_joined_without(stem, '.', ext, '/');
    assert(name.len() >= 3);
    lemma_flat_name(name);
    assert forall|k: int| dot < k < name.len() implies #[trigger] name[k] != "."@[0] by {
        assert(name[k] == ext[k - dot - 1]);
        assert(ext.contains(ext[k - dot - 1]));
    }
    lemma_last_place(name, "."@, dot);
}

/// A numbered name keeps the stem and the extension of the name: the number
/// stands between them.
pub proof fn law_numbered_name_keeps_its_parts(stem: Seq<char>, ext: Seq<char>, n: nat)
    requires
        stem.len() > 0,
        ext.len() > 0,
        !stem.contains('/'),
        !ext.contains('/'),
        !ext.contains('.'),
    ensures
        numbered(stem + "."@ + ext, n) == stem + "_"@ + decimal(n) + "."@ + ext,
{
    reveal_strlit(".");
    let name = stem + "."@ + ext;
    let dot = stem.len() as int;
    lemma_extension_dot(stem, ext);
    assert(name.subrange(dot + 1, name.len() as int) =~= ext);
    assert(name.subrange(0, dot) =~= stem);
    assert(file_stem(name) == Some(stem));
    assert(extension(name) == Some(ext));
    assert(numbered(name, n) == stem + "_"@ + decimal(n) + ("."@ + ext));
    assert(stem + "_"@ + decimal(n) + ("."@ + ext) =~= stem + "_"@ + decimal(n) + "."@ + ext);
}

/// A name without an extension is followed by its number.
pub proof fn law_numbered_name_without_extension(name: Seq<char>, n: nat)
    requires
        name.len() > 0,
        !name.contains('/'),
        !name.contains('.'),
    ensures
        numbered(name, n) == name + "_"@ + decimal(n),
{
    reveal_strlit(".");
    reveal_strlit("..");
    reveal_strlit("");
    assert(name.contains(name[0]));
    lemma_flat_name(name);
    lemma_last_index_from(name, "."@, name.len() - 1);
    if let Some(i) = last_index(name, "."@) {
        assert(name.subrange(i, i + 1)[0] == '.');
        assert(name.contains(name[i]));
    }
    assert(numbered(name, n) =~= name + "_"@ + decimal(n));
}

proof fn lemma_entry_has_no_tail(dir: Seq<char>, name: Seq<char>)
    requires
        name.len() > 0,
        !name.contains('/'),
        name != "."@,
    ensures
        without_tail(dir + "/"@ + name) == dir + "/"@ + name,
{
    reveal_strlit("/");
    reveal_strlit(".");
    let path = dir + "/"@ + name;
    assert(path.last() == name.last());
    assert(name.contains(name.last()));
    if name.len() == 1 {
        if name.last() == '.' {
            assert(name =~= "."@);
        }
    } else {
        assert(path[path.len() - 2] == name[name.len() - 2]);
        assert(name.contains(name[name.len() - 2]));
    }
}

/// A file keeps its wanted name where that is free, and gets the least number
/// that makes it free otherwise.
pub proof fn law_free_name_has_the_least_number(
    r: Seq<char>,
    name: Seq<char>,
    used: Set<Seq<char>>,
    n: nat,
)
    requires
        is_free_name(r, name, used),
    ensures
        !used.contains(r),
        !used.contains(name) ==> r == name,
        used.contains(name) && n >= 1 && !used.contains(numbered(name, n)) ==> exists|m: nat|
            1 <= m <= n && r == #[trigger] numbered(name, m),
{
    if used.contains(name) && n >= 1 && !used.contains(numbered(name, n)) {
        let m = choose|m: nat|
            m >= 1 && r == #[trigger] numbered(name, m) && (forall|k: nat|
                1 <= k < m ==> used.contains(#[trigger] numbered(name, k)));
        assert(!(1 <= n < m));
    }
}

/// The directory of an entry is the directory.
pub proof fn law_entry_stands_in_its_directory(dir: Seq<char>, name: Seq<char>)
    requires
        dir.len() > 0,
        without_tail(dir) == dir,
        name.len() > 0,
        !name.contains('/'),
        name != "."@,
    ensures
        parent_dir(dir + "/"@ + name) == dir,
{
    reveal_strlit("/");
    let path = dir + "/"@ + name;
    let n = dir.len() as int;
    lemma_entry_has_no_tail(dir, name);
    assert(path[n] == '/');
    assert forall|k: int| n < k < path.len() implies #[trigger] path[k] != "/"@[0] by {
        assert(path[k] == name[k - n - 1]);
        assert(name.contains(name[k - n - 1]));
    }
    lemma_last_place(path, "/"@, n);
    assert(path.take(n) =~= dir);
}

/// The path of an asset in Markdown reads back as the path: the directory, a
/// slash and the name.
pub proof fn law_asset_path_reads_back(prefix: Seq<char>, name: Seq<char>)
    requires
        !prefix.contains('\\'),
        !name.contains('\\'),
    ensures
        decode_utf8(percent_decoded_bytes(encode_utf8(asset_path(prefix, name)))) == prefix + "/"@
            + name,
{
    reveal_strlit("\\");
    reveal_strlit("/");
    let path = prefix + "/"@ + name;
    lemma_index_from(path, "\\"@, 0);
    assert(!occurs_in(path, "\\"@)) by {
        if let Some(i) = index_from(path, "\\"@, 0) {
            assert(path.subrange(i, i + 1)[0] == '\\');
            if i < prefix.len() {
                assert(prefix.contains(prefix[i]));
            } else if i > prefix.len() {
                assert(name.contains(name[i - prefix.len() - 1]));
            }
        }
    }
    lemma_nothing_replaced(path, "\\"@, "/"@, 0);
    assert(path.skip(0) =~= path);
    lemma_component_marks();
    law_percent_round_trip(path, COMPONENT_MARKS@);
}

proof fn lemma_component_marks()
    ensures
        !COMPONENT_MARKS@.contains('%'),
{
    reveal_strlit("-_.!~*'()");
}

} // verus!
