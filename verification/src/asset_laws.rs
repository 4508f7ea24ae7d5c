//! Lists of what a page refers to, and the addresses and names of its files.

use vstd::prelude::*;
use vstd::utf8::{decode_utf8, encode_utf8};

use crate::confluence::{
    attachment_of, attachments_among, download_url, either_group, image_rewriting, is_local_asset,
    last_query_value, listed, localized, query_value, sources_among as image_sources_among,
    AttachmentModel, IMAGE_SOURCE,
};
use crate::drawio::{
    diagram_attachment, diagram_file, fallback_block, refs_among, source_of_tag, sources_of_tags,
    stored_among, stored_source, title_parts, with_fallbacks, without_suffix, DiagramRefModel,
    FallbackDiagram,
};
use crate::export_html::woven_from;
use crate::json::{member_from, Json};
use crate::macros::{macro_param, CODE_BODY};
use crate::mxfile::filtered;
use crate::names::{extension, wanted_name};
use crate::pattern::{
    all_matches, first_group, group_text, law_rewriting_replaces_every_match, parts_between,
    rewritten, well_placed, whole_spans, whole_text, Span,
};
use crate::percent::{law_percent_round_trip, percent_decoded_bytes, percent_encoded, SEGMENT_MARKS};
use crate::plantuml::{
    alphanumeric, export_file, exports_among, has_extension, include_rewriting, sources_among,
    INCLUDE,
};
use crate::png::{chunk_text, diagram_chunk, header_end, is_png, law_embedded_source_reads_back};
use crate::table_laws::lemma_flat_push;
use crate::text::{has_prefix, has_suffix, lemma_skip_back, lower, skip_back, trimmed, white};
use crate::utils::{media_extension, media_type, sanitized};

verus! {

// ── Lists ──────────────────────────────────────────────────────────

/// The list of a value that may be there.
pub open spec fn as_list<A>(x: Option<A>) -> Seq<A> {
    match x {
        Some(found) => seq![found],
        None => Seq::empty(),
    }
}

proof fn lemma_attachments_prefix(a: Seq<Json>, b: Seq<Json>, n: int)
    requires
        n <= a.len(),
    ensures
        attachments_among(a + b, n) == attachments_among(a, n),
    decreases n,
{
    if n > 0 {
        lemma_attachments_prefix(a, b, n - 1);
        assert((a + b)[n - 1] == a[n - 1]);
    }
}

proof fn lemma_attachments_joined(a: Seq<Json>, b: Seq<Json>, n: int)
    requires
        0 <= n <= b.len(),
    ensures
        attachments_among(a + b, a.len() + n)
            == attachments_among(a, a.len() as int)
            + attachments_among(b, n),
    decreases n,
{
    if n == 0 {
        lemma_attachments_prefix(a, b, a.len() as int);
        assert(attachments_among(a, a.len() as int) + attachments_among(b, 0)
            =~= attachments_among(a, a.len() as int));
    } else {
        lemma_attachments_joined(a, b, n - 1);
        assert((a + b)[a.len() + n - 1] == b[n - 1]);
        assert(attachments_among(a + b, a.len() + n)
            =~= attachments_among(a, a.len() as int) + attachments_among(b, n));
    }
}

/// The attachments that records tell are listed in their order: each record
/// that tells one gives that one, and any other gives none.
pub proof fn law_attachments_are_listed_in_order(a: Seq<Json>, x: Json, b: Seq<Json>)
    ensures
        attachments_among(a + seq![x] + b, a.len() + 1int + b.len())
            == attachments_among(a, a.len() as int)
            + as_list(attachment_of(x))
            + attachments_among(b, b.len() as int),
{
    let one = seq![x];
    lemma_attachments_joined(a + one, b, b.len() as int);
    lemma_attachments_joined(a, one, 1);
    reveal_with_fuel(attachments_among, 2);
    assert(attachments_among(one, 1) =~= as_list(attachment_of(x)));
}

proof fn lemma_images_prefix(
    t: Seq<char>,
    a: Seq<Seq<Option<Span>>>,
    b: Seq<Seq<Option<Span>>>,
    n: int,
)
    requires
        n <= a.len(),
    ensures
        image_sources_among(t, a + b, n) == image_sources_among(t, a, n),
    decreases n,
{
    if n > 0 {
        lemma_images_prefix(t, a, b, n - 1);
        assert((a + b)[n - 1] == a[n - 1]);
    }
}

proof fn lemma_images_joined(
    t: Seq<char>,
    a: Seq<Seq<Option<Span>>>,
    b: Seq<Seq<Option<Span>>>,
    n: int,
)
    requires
        0 <= n <= b.len(),
    ensures
        image_sources_among(t, a + b, a.len() + n)
            == image_sources_among(t, a, a.len() as int)
            + image_sources_among(t, b, n),
    decreases n,
{
    if n == 0 {
        lemma_images_prefix(t, a, b, a.len() as int);
        assert(image_sources_among(t, a, a.len() as int) + image_sources_among(t, b, 0)
            =~= image_sources_among(t, a, a.len() as int));
    } else {
        lemma_images_joined(t, a, b, n - 1);
        assert((a + b)[a.len() + n - 1] == b[n - 1]);
        assert(image_sources_among(t, a + b, a.len() + n)
            =~= image_sources_among(t, a, a.len() as int) + image_sources_among(t, b, n));
    }
}

/// The sources of the images of a page are listed in their order.
pub proof fn law_images_are_listed_in_order(
    t: Seq<char>,
    a: Seq<Seq<Option<Span>>>,
    x: Seq<Option<Span>>,
    b: Seq<Seq<Option<Span>>>,
)
    ensures
        image_sources_among(t, a + seq![x] + b, a.len() + 1int + b.len())
            == image_sources_among(t, a, a.len() as int)
            + as_list(either_group(t, x, 1, 2))
            + image_sources_among(t, b, b.len() as int),
{
    let one = seq![x];
    lemma_images_joined(t, a + one, b, b.len() as int);
    lemma_images_joined(t, a, one, 1);
    reveal_with_fuel(image_sources_among, 2);
    assert(image_sources_among(t, one, 1) =~= as_list(either_group(t, x, 1, 2)));
}

proof fn lemma_exports_prefix(a: Seq<Seq<char>>, b: Seq<Seq<char>>, n: int)
    requires
        n <= a.len(),
    ensures
        exports_among(a + b, n) == exports_among(a, n),
    decreases n,
{
    if n > 0 {
        lemma_exports_prefix(a, b, n - 1);
        assert((a + b)[n - 1] == a[n - 1]);
    }
}

proof fn lemma_exports_joined(a: Seq<Seq<char>>, b: Seq<Seq<char>>, n: int)
    requires
        0 <= n <= b.len(),
    ensures
        exports_among(a + b, a.len() + n) == exports_among(a, a.len() as int) + exports_among(b, n),
    decreases n,
{
    if n == 0 {
        lemma_exports_prefix(a, b, a.len() as int);
        assert(exports_among(a, a.len() as int) + exports_among(b, 0)
            =~= exports_among(a, a.len() as int));
    } else {
        lemma_exports_joined(a, b, n - 1);
        assert((a + b)[a.len() + n - 1] == b[n - 1]);
        assert(exports_among(a + b, a.len() + n)
            =~= exports_among(a, a.len() as int) + exports_among(b, n));
    }
}

/// The files that diagrams are exported to are listed in their order.
pub proof fn law_exports_are_listed_in_order(a: Seq<Seq<char>>, x: Seq<char>, b: Seq<Seq<char>>)
    ensures
        exports_among(a + seq![x] + b, a.len() + 1int + b.len()) == exports_among(a, a.len() as int) + (
        match macro_param(x, "exportName"@) {
            Some(name) => seq![export_file(name, macro_param(x, "format"@))],
            None => Seq::empty(),
        }) + exports_among(b, b.len() as int),
{
    let one = seq![x];
    lemma_exports_joined(a + one, b, b.len() as int);
    lemma_exports_joined(a, one, 1);
    reveal_with_fuel(exports_among, 2);
    assert(exports_among(one, 1) =~= (
        match macro_param(x, "exportName"@) {
            Some(name) => seq![export_file(name, macro_param(x, "format"@))],
            None => Seq::empty(),
        }));
}

proof fn lemma_sources_prefix(a: Seq<Seq<char>>, b: Seq<Seq<char>>, n: int)
    requires
        n <= a.len(),
    ensures
        sources_among(a + b, n) == sources_among(a, n),
    decreases n,
{
    if n > 0 {
        lemma_sources_prefix(a, b, n - 1);
        assert((a + b)[n - 1] == a[n - 1]);
    }
}

proof fn lemma_sources_joined(a: Seq<Seq<char>>, b: Seq<Seq<char>>, n: int)
    requires
        0 <= n <= b.len(),
    ensures
        sources_among(a + b, a.len() + n) == sources_among(a, a.len() as int) + sources_among(b, n),
    decreases n,
{
    if n == 0 {
        lemma_sources_prefix(a, b, a.len() as int);
        assert(sources_among(a, a.len() as int) + sources_among(b, 0)
            =~= sources_among(a, a.len() as int));
    } else {
        lemma_sources_joined(a, b, n - 1);
        assert((a + b)[a.len() + n - 1] == b[n - 1]);
        assert(sources_among(a + b, a.len() + n)
            =~= sources_among(a, a.len() as int) + sources_among(b, n));
    }
}

/// The sources of the diagrams of a page are listed in their order.
pub proof fn law_sources_are_listed_in_order(a: Seq<Seq<char>>, x: Seq<char>, b: Seq<Seq<char>>)
    ensures
        sources_among(a + seq![x] + b, a.len() + 1int + b.len())
            == sources_among(a, a.len() as int)
            + as_list(first_group(CODE_BODY@, x, 1))
            + sources_among(b, b.len() as int),
{
    let one = seq![x];
    lemma_sources_joined(a + one, b, b.len() as int);
    lemma_sources_joined(a, one, 1);
    reveal_with_fuel(sources_among, 2);
    assert(sources_among(one, 1) =~= as_list(first_group(CODE_BODY@, x, 1)));
}

proof fn lemma_refs_prefix(a: Seq<Seq<char>>, b: Seq<Seq<char>>, n: int)
    requires
        n <= a.len(),
    ensures
        refs_among(a + b, n) == refs_among(a, n),
    decreases n,
{
    if n > 0 {
        lemma_refs_prefix(a, b, n - 1);
        assert((a + b)[n - 1] == a[n - 1]);
    }
}

proof fn lemma_refs_joined(a: Seq<Seq<char>>, b: Seq<Seq<char>>, n: int)
    requires
        0 <= n <= b.len(),
    ensures
        refs_among(a + b, a.len() + n) == refs_among(a, a.len() as int) + refs_among(b, n),
    decreases n,
{
    if n == 0 {
        lemma_refs_prefix(a, b, a.len() as int);
        assert(refs_among(a, a.len() as int) + refs_among(b, 0) =~= refs_among(a, a.len() as int));
    } else {
        lemma_refs_joined(a, b, n - 1);
        assert((a + b)[a.len() + n - 1] == b[n - 1]);
        assert(refs_among(a + b, a.len() + n) =~= refs_among(a, a.len() as int) + refs_among(b, n));
    }
}

/// The diagrams that a page refers to are listed in their order, each with the
/// hash that it asks for, unless that is empty.
pub proof fn law_refs_are_listed_in_order(a: Seq<Seq<char>>, x: Seq<char>, b: Seq<Seq<char>>)
    ensures
        refs_among(a + seq![x] + b, a.len() + 1int + b.len()) == refs_among(a, a.len() as int) + (
        match macro_param(x, "diagramName"@) {
            Some(diagram_name) => {
                let aspect_hash = match macro_param(x, "aspectHash"@) {
                    Some(h) if h.len() > 0 => Some(h),
                    _ => None,
                };
                seq![DiagramRefModel { diagram_name, aspect_hash }]
            },
            None => Seq::empty(),
        }) + refs_among(b, b.len() as int),
{
    let one = seq![x];
    lemma_refs_joined(a + one, b, b.len() as int);
    lemma_refs_joined(a, one, 1);
    reveal_with_fuel(refs_among, 2);
    assert(refs_among(one, 1) =~= (
        match macro_param(x, "diagramName"@) {
            Some(diagram_name) => {
                let aspect_hash = match macro_param(x, "aspectHash"@) {
                    Some(h) if h.len() > 0 => Some(h),
                    _ => None,
                };
                seq![DiagramRefModel { diagram_name, aspect_hash }]
            },
            None => Seq::empty(),
        }));
}

proof fn lemma_tag_sources_prefix(base_url: Seq<char>, a: Seq<Seq<char>>, b: Seq<Seq<char>>, n: int)
    requires
        n <= a.len(),
    ensures
        sources_of_tags(a + b, base_url, n) == sources_of_tags(a, base_url, n),
    decreases n,
{
    if n > 0 {
        lemma_tag_sources_prefix(base_url, a, b, n - 1);
        assert((a + b)[n - 1] == a[n - 1]);
    }
}

proof fn lemma_tag_sources_joined(base_url: Seq<char>, a: Seq<Seq<char>>, b: Seq<Seq<char>>, n: int)
    requires
        0 <= n <= b.len(),
    ensures
        sources_of_tags(a + b, base_url, a.len() + n)
            == sources_of_tags(a, base_url, a.len() as int)
            + sources_of_tags(b, base_url, n),
    decreases n,
{
    if n == 0 {
        lemma_tag_sources_prefix(base_url, a, b, a.len() as int);
        assert(sources_of_tags(a, base_url, a.len() as int) + sources_of_tags(b, base_url, 0)
            =~= sources_of_tags(a, base_url, a.len() as int));
    } else {
        lemma_tag_sources_joined(base_url, a, b, n - 1);
        assert((a + b)[a.len() + n - 1] == b[n - 1]);
        assert(sources_of_tags(a + b, base_url, a.len() + n)
            =~= sources_of_tags(a, base_url, a.len() as int) + sources_of_tags(b, base_url, n));
    }
}

/// The diagrams that a page shows are listed in their order.
pub proof fn law_tag_sources_are_listed_in_order(
    base_url: Seq<char>,
    a: Seq<Seq<char>>,
    x: Seq<char>,
    b: Seq<Seq<char>>,
)
    ensures
        sources_of_tags(a + seq![x] + b, base_url, a.len() + 1int + b.len())
            == sources_of_tags(a, base_url, a.len() as int)
            + as_list(source_of_tag(x, base_url))
            + sources_of_tags(b, base_url, b.len() as int),
{
    let one = seq![x];
    lemma_tag_sources_joined(base_url, a + one, b, b.len() as int);
    lemma_tag_sources_joined(base_url, a, one, 1);
    reveal_with_fuel(sources_of_tags, 2);
    assert(sources_of_tags(one, base_url, 1) =~= as_list(source_of_tag(x, base_url)));
}

proof fn lemma_stored_prefix(
    page_id: Seq<char>,
    base_url: Seq<char>,
    attachments: Map<Seq<char>,
    AttachmentModel>,
    a: Seq<DiagramRefModel>,
    b: Seq<DiagramRefModel>,
    n: int,
)
    requires
        n <= a.len(),
    ensures
        stored_among(a + b, page_id, base_url, attachments, n)
            == stored_among(a, page_id, base_url, attachments, n),
    decreases n,
{
    if n > 0 {
        lemma_stored_prefix(page_id, base_url, attachments, a, b, n - 1);
        assert((a + b)[n - 1] == a[n - 1]);
    }
}

proof fn lemma_stored_joined(
    page_id: Seq<char>,
    base_url: Seq<char>,
    attachments: Map<Seq<char>,
    AttachmentModel>,
    a: Seq<DiagramRefModel>,
    b: Seq<DiagramRefModel>,
    n: int,
)
    requires
        0 <= n <= b.len(),
    ensures
        stored_among(a + b, page_id, base_url, attachments, a.len() + n)
            == stored_among(a, page_id, base_url, attachments, a.len() as int)
            + stored_among(b, page_id, base_url, attachments, n),
    decreases n,
{
    if n == 0 {
        lemma_stored_prefix(page_id, base_url, attachments, a, b, a.len() as int);
        assert(stored_among(a, page_id, base_url, attachments, a.len() as int)
            + stored_among(b, page_id, base_url, attachments, 0)
            =~= stored_among(a, page_id, base_url, attachments, a.len() as int));
    } else {
        lemma_stored_joined(page_id, base_url, attachments, a, b, n - 1);
        assert((a + b)[a.len() + n - 1] == b[n - 1]);
        assert(stored_among(a + b, page_id, base_url, attachments, a.len() + n)
            =~= stored_among(a, page_id, base_url, attachments, a.len() as int)
            + stored_among(b, page_id, base_url, attachments, n));
    }
}

/// The sources of the diagrams that a page refers to are listed in their
/// order.
pub proof fn law_stored_are_listed_in_order(
    page_id: Seq<char>,
    base_url: Seq<char>,
    attachments: Map<Seq<char>,
    AttachmentModel>,
    a: Seq<DiagramRefModel>,
    x: DiagramRefModel,
    b: Seq<DiagramRefModel>,
)
    ensures
        stored_among(a + seq![x] + b, page_id, base_url, attachments, a.len() + 1int + b.len())
            == stored_among(a, page_id, base_url, attachments, a.len() as int)
            + as_list(stored_source(x, page_id, base_url, attachments))
            + stored_among(b, page_id, base_url, attachments, b.len() as int),
{
    let one = seq![x];
    lemma_stored_joined(page_id, base_url, attachments, a + one, b, b.len() as int);
    lemma_stored_joined(page_id, base_url, attachments, a, one, 1);
    reveal_with_fuel(stored_among, 2);
    assert(stored_among(one, page_id, base_url, attachments, 1)
        =~= as_list(stored_source(x, page_id, base_url, attachments)));
}

/// Texts with a separator between them, and one more behind the last, are the
/// texts with a separator behind each.
pub proof fn law_list_is_its_texts(v: Seq<Seq<char>>, separator: Seq<char>, n: int)
    requires
        0 < n <= v.len(),
    ensures
        listed(v, separator, n) + separator == Seq::new(
            n as nat,
            |k: int| v[k] + separator,
        ).flatten(),
    decreases n,
{
    let blocks = Seq::new(n as nat, |k: int| v[k] + separator);
    lemma_flat_push(blocks);
    if n == 1 {
        lemma_flat_push(blocks.drop_last());
        assert(listed(v, separator, n) + separator
            =~= blocks.drop_last().flatten() + blocks.last());
    } else {
        law_list_is_its_texts(v, separator, n - 1);
        assert(blocks.drop_last() =~= Seq::new((n - 1) as nat, |k: int| v[k] + separator));
        assert(listed(v, separator, n) + separator =~= (listed(v, separator, n - 1) + separator) + (
        v[n - 1] + separator));
    }
}

// ── Attachments ────────────────────────────────────────────────────

proof fn lemma_members(id: Json, title: Json, metadata: Json, extensions: Json, links: Json)
    ensures
        ({
            let members = seq![
                ("id"@, id),
                ("title"@, title),
                ("metadata"@, metadata),
                ("extensions"@, extensions),
                ("_links"@, links),
            ];
            &&& member_from(members, "id"@, 0) == Some(id)
            &&& member_from(members, "title"@, 0) == Some(title)
            &&& member_from(members, "metadata"@, 0) == Some(metadata)
            &&& member_from(members, "extensions"@, 0) == Some(extensions)
            &&& member_from(members, "_links"@, 0) == Some(links)
        }),
{
    reveal_strlit("id");
    reveal_strlit("title");
    reveal_strlit("metadata");
    reveal_strlit("extensions");
    reveal_strlit("_links");
    reveal_with_fuel(member_from, 6);
    assert("id"@[0] == 'i' && "title"@[0] == 't' && "metadata"@[0] == 'm' && "extensions"@[0] == 'e'
        && "_links"@[0] == '_');
}

/// A record of an attachment may be an object or the list of its fields: both
/// tell the same attachment.
pub proof fn law_record_forms_agree(
    id: Json,
    title: Json,
    metadata: Json,
    extensions: Json,
    links: Json,
)
    ensures
        attachment_of(Json::Array(seq![id, title, metadata, extensions, links])) == attachment_of(
            Json::Object(
                seq![
                    ("id"@, id),
                    ("title"@, title),
                    ("metadata"@, metadata),
                    ("extensions"@, extensions),
                    ("_links"@, links),
                ],
            ),
        ),
{
    lemma_members(id, title, metadata, extensions, links);
}

proof fn lemma_segment_marks()
    ensures
        !SEGMENT_MARKS@.contains('%'),
{
    reveal_strlit("-_.~");
}

/// An attachment for which no path is known is downloaded from an address that
/// names its page and its title: both read back from it.
pub proof fn law_download_address_reads_back(
    base_url: Seq<char>,
    page_id: Seq<char>,
    attachment: AttachmentModel,
)
    requires
        attachment.download_path is None,
    ensures
        exists|page: Seq<char>, title: Seq<char>|
            download_url(base_url, page_id, attachment) == #[trigger] (base_url
                + "/download/attachments/"@ + page + "/"@ + title) && decode_utf8(
                percent_decoded_bytes(encode_utf8(page)),
            ) == page_id && decode_utf8(percent_decoded_bytes(encode_utf8(title)))
                == attachment.title,
{
    lemma_segment_marks();
    law_percent_round_trip(page_id, SEGMENT_MARKS@);
    law_percent_round_trip(attachment.title, SEGMENT_MARKS@);
    let page = percent_encoded(page_id, SEGMENT_MARKS@);
    let title = percent_encoded(attachment.title, SEGMENT_MARKS@);
    assert(download_url(base_url, page_id, attachment) == base_url + "/download/attachments/"@ + page
        + "/"@ + title);
}

// ── Images ─────────────────────────────────────────────────────────

/// An image that has been downloaded shows the file; the rest of its tag
/// stays. Any other image stays as it is.
pub proof fn law_downloaded_image_shows_the_file(
    before: Seq<char>,
    quote: Seq<char>,
    src: Seq<char>,
    local: Map<Seq<char>, Seq<char>>,
)
    ensures
        ({
            let original = before + quote + src + quote;
            let shown = localized(original, before, quote, src, quote, local);
            let n = (before + quote).len() as int;
            &&& !local.contains_key(src) ==> shown == original
            &&& local.contains_key(src) ==> shown.take(n) == original.take(n) && shown.skip(
                n + local[src].len(),
            ) == original.skip(n + src.len()) && shown.subrange(n, n + local[src].len())
                == local[src]
        }),
{
    let original = before + quote + src + quote;
    let shown = localized(original, before, quote, src, quote, local);
    let n = (before + quote).len() as int;
    if local.contains_key(src) {
        assert(shown.take(n) =~= original.take(n));
        assert(shown.skip(n + local[src].len()) =~= quote);
        assert(original.skip(n + src.len()) =~= quote);
        assert(shown.subrange(n, n + local[src].len()) =~= local[src]);
    }
}

/// Every image of a page is looked at, and all else stays.
pub proof fn law_every_image_is_looked_at(t: Seq<char>, local: Map<Seq<char>, Seq<char>>)
    requires
        well_placed(t.len(), all_matches(IMAGE_SOURCE@, t)),
    ensures
        ({
            let ms = all_matches(IMAGE_SOURCE@, t);
            let parts = parts_between(t, whole_spans(ms));
            &&& t == woven_from(parts, Seq::new(ms.len(), |k: int| whole_text(t, ms[k])), 0)
            &&& rewritten(IMAGE_SOURCE@, t, image_rewriting(local)) == woven_from(
                parts,
                Seq::new(
                    ms.len(),
                    |k: int|
                        localized(
                            whole_text(t, ms[k]),
                            group_text(t, ms[k], 1),
                            group_text(t, ms[k], 2),
                            group_text(t, ms[k], 3),
                            group_text(t, ms[k], 4),
                            local,
                        ),
                ),
                0,
            )
        }),
{
    let ms = all_matches(IMAGE_SOURCE@, t);
    let g = image_rewriting(local);
    law_rewriting_replaces_every_match(IMAGE_SOURCE@, t, g);
    assert(Seq::new(ms.len(), |k: int| g(t, ms[k])) =~= Seq::new(
        ms.len(),
        |k: int|
            localized(
                whole_text(t, ms[k]),
                group_text(t, ms[k], 1),
                group_text(t, ms[k], 2),
                group_text(t, ms[k], 3),
                group_text(t, ms[k], 4),
                local,
            ),
    ));
}

/// A file in the asset directory is known as one.
pub proof fn law_asset_is_known(prefix: Seq<char>, name: Seq<char>)
    ensures
        is_local_asset(prefix + "/"@ + name, prefix),
        is_local_asset(percent_encoded(prefix, SEGMENT_MARKS@) + "%2F"@ + name, prefix),
{
    let plain = prefix + "/"@ + name;
    let start = prefix + "/"@;
    assert(plain.subrange(0, start.len() as int) =~= start);
    let encoded = percent_encoded(prefix, SEGMENT_MARKS@) + "%2F"@;
    assert((encoded + name).subrange(0, encoded.len() as int) =~= encoded);
}

// ── Queries ────────────────────────────────────────────────────────

/// The value of a query is the first with its name, and there is none only
/// where no pair has the name.
pub proof fn law_query_value_is_the_first(
    query: Seq<(Seq<char>, Seq<char>)>,
    name: Seq<char>,
    from: int,
)
    requires
        0 <= from,
    ensures
        match query_value(query, name, from) {
            Some(v) => exists|i: int|
                from <= i < query.len() && #[trigger] query[i] == (name, v) && forall|j: int|
                    from <= j < i ==> (#[trigger] query[j]).0 != name,
            None => forall|j: int| from <= j < query.len() ==> (#[trigger] query[j]).0 != name,
        },
    decreases query.len() - from,
{
    if from < query.len() {
        if query[from].0 == name {
            assert(query[from] == (name, query[from].1));
        } else {
            law_query_value_is_the_first(query, name, from + 1);
        }
    }
}

/// The last value of a query with a name is the last, and there is none only
/// where no pair has the name.
pub proof fn law_last_query_value_is_the_last(
    query: Seq<(Seq<char>, Seq<char>)>,
    name: Seq<char>,
    n: int,
)
    requires
        0 <= n <= query.len(),
    ensures
        match last_query_value(query, name, n) {
            Some(v) => exists|i: int|
                0 <= i < n && #[trigger] query[i] == (name, v) && forall|j: int|
                    i < j < n ==> (#[trigger] query[j]).0 != name,
            None => forall|j: int| 0 <= j < n ==> (#[trigger] query[j]).0 != name,
        },
    decreases n,
{
    if n > 0 {
        if query[n - 1].0 == name {
            assert(query[n - 1] == (name, query[n - 1].1));
        } else {
            law_last_query_value_is_the_last(query, name, n - 1);
        }
    }
}

// ── PlantUML ───────────────────────────────────────────────────────

/// The file of a diagram has an extension: its name's own, and else that of
/// its format behind the name.
pub proof fn law_export_file_has_an_extension(name: Seq<char>, format: Option<Seq<char>>)
    ensures
        has_prefix(export_file(name, format), name),
        has_extension(export_file(name, format)),
        has_extension(name) ==> export_file(name, format) == name,
        !has_extension(name) ==> export_file(name, format) == name + (if format matches Some(f)
            && lower(f) == "svg"@ {
            ".svg"@
        } else {
            ".png"@
        }),
{
    reveal_strlit(".svg");
    reveal_strlit(".png");
    let file = export_file(name, format);
    assert(file.subrange(0, name.len() as int) =~= name);
    if !has_extension(name) {
        let n = file.len() as int;
        lemma_skip_back(file, alphanumeric(), n);
        let i = skip_back(file, alphanumeric(), n);
        assert(file[n - 4] == '.');
        assert(alphanumeric()(file[n - 1]));
        assert(alphanumeric()(file[n - 2]));
        assert(alphanumeric()(file[n - 3]));
        assert(!alphanumeric()(file[n - 4]));
        if i > n - 3 {
            assert(!alphanumeric()(file[i - 1]));
        }
        if i < n - 3 {
            assert(alphanumeric()(file[n - 4]));
        }
        assert(i == n - 3);
    }
}

/// Every include of an attachment reads the file from the asset directory:
/// what stands before the name stays, the directory and a slash come before
/// it, and all other lines stay.
pub proof fn law_every_include_reads_from_the_assets(t: Seq<char>, prefix: Seq<char>)
    requires
        well_placed(t.len(), all_matches(INCLUDE@, t)),
    ensures
        ({
            let ms = all_matches(INCLUDE@, t);
            let parts = parts_between(t, whole_spans(ms));
            &&& t == woven_from(parts, Seq::new(ms.len(), |k: int| whole_text(t, ms[k])), 0)
            &&& rewritten(INCLUDE@, t, include_rewriting(prefix)) == woven_from(
                parts,
                Seq::new(
                    ms.len(),
                    |k: int|
                        group_text(t, ms[k], 1) + prefix + "/"@ + trimmed(
                            group_text(t, ms[k], 2),
                            white(),
                        ),
                ),
                0,
            )
        }),
{
    let ms = all_matches(INCLUDE@, t);
    let g = include_rewriting(prefix);
    law_rewriting_replaces_every_match(INCLUDE@, t, g);
    assert(Seq::new(ms.len(), |k: int| g(t, ms[k])) =~= Seq::new(
        ms.len(),
        |k: int|
            group_text(t, ms[k], 1) + prefix + "/"@ + trimmed(group_text(t, ms[k], 2), white()),
    ));
}

// ── Draw.io ────────────────────────────────────────────────────────

/// The title of an exported image names its diagram, its source and its file.
pub proof fn law_title_names_its_diagram(name: Seq<char>, hash: Seq<char>)
    ensures
        ({
            let exported = title_parts(name + ".drawio.png"@, None);
            &&& exported.name == name
            &&& exported.hash is None
            &&& exported.xml_title == name + ".drawio"@
            &&& exported.output == name + ".drawio.png"@
        }),
        ({
            let title = name + "-"@ + hash + ".png"@;
            let hashed = title_parts(title, Some((name, hash)));
            !has_suffix(title, ".drawio.png"@) ==> hashed.name == name && hashed.hash == Some(hash)
                && hashed.xml_title == name && hashed.output == name + "-"@ + hash + ".drawio.png"@
        }),
        ({
            let title = name + ".png"@;
            let plain = title_parts(title, None);
            !has_suffix(title, ".drawio.png"@) && !has_suffix(name, ".png"@) ==> plain.name == name
                && plain.hash is None && plain.xml_title == name && plain.output == name
                + ".drawio.png"@
        }),
{
    reveal_strlit(".drawio.png");
    reveal_strlit(".png");
    let title = name + ".drawio.png"@;
    assert(title.subrange(title.len() - 11, title.len() as int) =~= ".drawio.png"@);
    assert(title.take(title.len() - 11) =~= name);
    let plain = name + ".png"@;
    assert(plain.subrange(plain.len() - 4, plain.len() as int) =~= ".png"@);
    assert(plain.take(plain.len() - 4) =~= name);
    reveal_with_fuel(without_suffix, 2);
}

/// The section of diagrams stands behind the page, which stays as it is; each
/// diagram stands in it once, in order.
pub proof fn law_section_lists_every_diagram(html: Seq<char>, diagrams: Seq<FallbackDiagram>)
    requires
        diagrams.len() > 0,
    ensures
        with_fallbacks(html, diagrams) == html + "\n<hr />\n<h2>Embedded diagrams</h2>\n"@ + Seq::new(
            diagrams.len(),
            |k: int| fallback_block(diagrams[k]) + "\n"@,
        ).flatten(),
        with_fallbacks(html, Seq::empty()) == html,
{
    let blocks = Seq::new(diagrams.len(), |i: int| fallback_block(diagrams[i]));
    let head = html + "\n<hr />\n<h2>Embedded diagrams</h2>\n"@;
    law_list_is_its_texts(blocks, "\n"@, diagrams.len() as int);
    assert(Seq::new(diagrams.len(), |k: int| blocks[k] + "\n"@) =~= Seq::new(
        diagrams.len(),
        |k: int| fallback_block(diagrams[k]) + "\n"@,
    ));
    let list = listed(blocks, "\n"@, diagrams.len() as int);
    assert(head + list + "\n"@ =~= head + (list + "\n"@));
}

/// The image of a diagram with its hash goes before the plain one; without a
/// hash, or where that image is not attached, the plain one shows the diagram.
pub proof fn law_hashed_image_goes_first(
    name: Seq<char>,
    hash: Seq<char>,
    attachments: Map<Seq<char>, AttachmentModel>,
)
    ensures
        ({
            let hashed = name + "-"@ + hash + ".png"@;
            let plain = name + ".png"@;
            let wanted = DiagramRefModel { diagram_name: name, aspect_hash: Some(hash) };
            let any = DiagramRefModel { diagram_name: name, aspect_hash: None };
            &&& attachments.contains_key(hashed) ==> diagram_attachment(wanted, attachments) == Some(
                attachments[hashed],
            )
            &&& !attachments.contains_key(hashed) ==> diagram_attachment(wanted, attachments)
                == diagram_attachment(any, attachments)
            &&& attachments.contains_key(plain) ==> diagram_attachment(any, attachments) == Some(
                attachments[plain],
            )
            &&& !attachments.contains_key(plain) ==> diagram_attachment(any, attachments) is None
        }),
{
}

/// The source of a stored diagram is that of the diagram: its image is the
/// attachment that shows it, and its document is the attachment of its name.
pub proof fn law_stored_source_is_the_diagrams(
    d: DiagramRefModel,
    page_id: Seq<char>,
    base_url: Seq<char>,
    attachments: Map<Seq<char>, AttachmentModel>,
)
    ensures
        match (
            diagram_attachment(d, attachments),
            stored_source(d, page_id, base_url, attachments),
        ) {
            (Some(png), Some(s)) => {
                &&& s.page_id == page_id
                &&& s.diagram_name == d.diagram_name
                &&& s.aspect_hash == d.aspect_hash
                &&& s.png_title == png.title
                &&& s.png_url == download_url(base_url, page_id, png)
                &&& attachments.contains_key(d.diagram_name) ==> s.xml_url == Some(
                    download_url(base_url, page_id, attachments[d.diagram_name]),
                )
                &&& !attachments.contains_key(d.diagram_name) ==> s.xml_url is None
                &&& has_prefix(s.output_base_name, d.diagram_name)
                &&& has_suffix(s.output_base_name, ".drawio.png"@)
            },
            (None, None) => true,
            _ => false,
        },
{
    if let Some(s) = stored_source(d, page_id, base_url, attachments) {
        let name = d.diagram_name;
        let output = s.output_base_name;
        let suffix = ".drawio.png"@;
        assert(output.subrange(0, name.len() as int) =~= name);
        assert(output.subrange(output.len() - suffix.len(), output.len() as int) =~= suffix);
    }
}

/// A finished diagram holds its source: the one diagram that is asked for, and
/// the whole document where that is not found. The rest of the image stays; an
/// image without a source, or one that is no PNG file, stays altogether.
pub proof fn law_finished_diagram_holds_its_source(
    png: Seq<u8>,
    xml: Seq<char>,
    hash: Option<Seq<char>>,
)
    ensures
        diagram_file(png, None, hash) == png,
        !is_png(png) ==> diagram_file(png, Some(xml), hash) == png,
        is_png(png) ==> ({
            let source = match filtered(xml, hash) {
                Some(one) => one,
                None => xml,
            };
            let out = diagram_file(png, Some(xml), hash);
            let a = header_end(png);
            let b = a + diagram_chunk(source).len();
            &&& out.take(a) == png.take(a)
            &&& out.skip(b) == png.skip(a)
            &&& percent_decoded_bytes(chunk_text(out.subrange(a, b))) == encode_utf8(source)
        }),
{
    if is_png(png) {
        let source = match filtered(xml, hash) {
            Some(one) => one,
            None => xml,
        };
        law_embedded_source_reads_back(png, source);
    }
}

// ── Names of downloads ─────────────────────────────────────────────

/// A name with an extension is what a download is called, whatever its media
/// type; one without gets the extension of the media type. The fallback counts
/// as the name where none was found.
pub proof fn law_download_is_called_by_its_name(
    name: Seq<char>,
    fallback: Seq<char>,
    content_type: Seq<char>,
)
    ensures
        wanted_name(Some(name), fallback, None) == sanitized(name),
        extension(name) is Some ==> wanted_name(Some(name), fallback, Some(content_type))
            == sanitized(name),
        extension(name) is None ==> wanted_name(Some(name), fallback, Some(content_type))
            == sanitized(name + media_extension(media_type(content_type))),
        wanted_name(None, name, Some(content_type)) == wanted_name(
            Some(name),
            fallback,
            Some(content_type),
        ),
        wanted_name(None, name, None) == sanitized(name),
{
}

} // verus!
