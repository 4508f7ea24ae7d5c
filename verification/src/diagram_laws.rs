//! In what order the diagrams of a page come, and where their files are.

use vstd::prelude::*;

use crate::asset_laws::{
    as_list, law_exports_are_listed_in_order, law_images_are_listed_in_order,
    law_refs_are_listed_in_order, law_sources_are_listed_in_order, law_stored_are_listed_in_order,
    law_tag_sources_are_listed_in_order,
};
use crate::confluence::{
    download_url, either_group, image_sources_of, sources_among as image_sources_among,
    AttachmentModel, IMAGE,
};
use crate::drawio::{
    all_decoded, attachment_address, download_place, in_order, law_every_stored_source_occurs_once,
    matched_order, names_diagram, page_refs, refs_among, rendered_sources, same_image,
    source_of_src, source_of_tag, source_order, sources_of_tags, stored_among, stored_source,
    stored_sources, unused_match, unused_order, DiagramRefModel, IMAGE_TAG, Origin, SourceModel,
};
use crate::macros::{all_texts, macro_param, macro_pattern, CODE_BODY};
use crate::pattern::{all_matches, first_group, Span};
use crate::percent::percent_decoded;
use crate::plantuml::{
    attached_among, export_file, exports_among, exports_attached, page_exports, page_sources,
    sources_among,
};
use crate::text::{has_suffix, lower, words};
use crate::web::{resolved, url_read, UrlModel};

verus! {

// ── Order ──────────────────────────────────────────────────────────

/// Whether a stored source has its place among the first `n`.
pub open spec fn comes_before(order: Seq<Origin>, k: int, n: int) -> bool {
    exists|j: int| 0 <= j < n && #[trigger] order[j] == Origin::Stored(k)
}

proof fn lemma_first_match(
    r: SourceModel,
    stored: Seq<SourceModel>,
    used: Set<int>,
    i: int,
    k: int,
)
    requires
        0 <= i <= k < stored.len(),
        !used.contains(k),
        same_image(r, stored[k]),
    ensures
        unused_match(r, stored, used, i) matches Some(m) && i <= m <= k,
    decreases k - i,
{
    if used.contains(i) || !same_image(r, stored[i]) {
        lemma_first_match(r, stored, used, i + 1, k);
    }
}

proof fn lemma_match_is_in(r: SourceModel, stored: Seq<SourceModel>, used: Set<int>, i: int)
    requires
        0 <= i,
    ensures
        unused_match(r, stored, used, i) matches Some(m) ==> i <= m < stored.len(),
    decreases stored.len() - i,
{
    if i < stored.len() {
        lemma_match_is_in(r, stored, used, i + 1);
    }
}

proof fn lemma_used_come_before(rendered: Seq<SourceModel>, stored: Seq<SourceModel>, n: int)
    requires
        0 <= n <= rendered.len(),
    ensures
        ({
            let (order, used) = matched_order(rendered, stored, n);
            &&& order.len() == n
            &&& forall|k: int| #[trigger]
                used.contains(k) ==> 0 <= k < stored.len() && comes_before(order, k, n)
            &&& forall|i: int, k: int|
                0 <= i < n && 0 <= k < stored.len() && same_image(
                    #[trigger] rendered[i],
                    #[trigger] stored[k],
                ) ==> comes_before(order, k, i) || (order[i] matches Origin::Stored(m) && m <= k)
        }),
    decreases n,
{
    if n > 0 {
        lemma_used_come_before(rendered, stored, n - 1);
        let (before, used) = matched_order(rendered, stored, n - 1);
        let (order, now_used) = matched_order(rendered, stored, n);
        lemma_match_is_in(rendered[n - 1], stored, used, 0);
        assert forall|k: int, m: int| comes_before(before, k, m) && m <= n - 1 implies #[trigger]
            comes_before(order, k, m) by {
            let j = choose|j: int| 0 <= j < m && #[trigger] before[j] == Origin::Stored(k);
            assert(order[j] == before[j]);
        }
        assert forall|k: int| #[trigger] now_used.contains(k) implies 0 <= k < stored.len()
            && comes_before(order, k, n) by {
            if used.contains(k) {
                assert(comes_before(before, k, n - 1));
                assert(comes_before(order, k, n - 1));
                let j = choose|j: int| 0 <= j < n - 1 && #[trigger] order[j] == Origin::Stored(k);
                assert(order[j] == Origin::Stored(k));
            } else {
                assert(order[n - 1] == Origin::Stored(k));
            }
        }
        assert forall|i: int, k: int|
            0 <= i < n && 0 <= k < stored.len() && same_image(
                #[trigger] rendered[i],
                #[trigger] stored[k],
            ) implies comes_before(order, k, i) || (order[i] matches Origin::Stored(m) && m
            <= k) by {
            if i < n - 1 {
                assert(order[i] == before[i]);
                if comes_before(before, k, i) {
                    assert(comes_before(order, k, i));
                }
            } else if used.contains(k) {
                assert(comes_before(before, k, n - 1));
                assert(comes_before(order, k, n - 1));
            } else {
                lemma_first_match(rendered[i], stored, used, 0, k);
            }
        }
    }
}

/// A rendered source gives way to the first stored one of the same image that
/// has no place yet: where a stored source shows the image of a rendered one,
/// it comes earlier, or the place of the rendered one is taken by it or by a
/// stored source in front of it.
pub proof fn law_first_stored_source_stands_in(
    rendered: Seq<SourceModel>,
    stored: Seq<SourceModel>,
    i: int,
    k: int,
)
    requires
        0 <= i < rendered.len(),
        0 <= k < stored.len(),
        rendered[i].page_id == stored[k].page_id,
        rendered[i].png_title == stored[k].png_title,
    ensures
        ({
            let order = source_order(rendered, stored);
            comes_before(order, k, i) || (order[i] matches Origin::Stored(m) && m <= k)
        }),
{
    let n = rendered.len() as int;
    lemma_used_come_before(rendered, stored, n);
    let (matched, used) = matched_order(rendered, stored, n);
    let order = source_order(rendered, stored);
    assert(same_image(rendered[i], stored[k]));
    assert(order[i] == matched[i]);
    if comes_before(matched, k, i) {
        let j = choose|j: int| 0 <= j < i && #[trigger] matched[j] == Origin::Stored(k);
        assert(order[j] == matched[j]);
    }
}

proof fn lemma_unused_ascend(used: Set<int>, n: int, i: int, j: int)
    requires
        0 <= i < j < unused_order(used, n).len(),
    ensures
        unused_order(used, n)[i] matches Origin::Stored(a) && (unused_order(
            used,
            n,
        )[j] matches Origin::Stored(b) && a < b < n),
    decreases n,
{
    if n > 0 {
        if used.contains(n - 1) {
            lemma_unused_ascend(used, n - 1, i, j);
        } else {
            let before = unused_order(used, n - 1);
            if j < before.len() {
                lemma_unused_ascend(used, n - 1, i, j);
            } else {
                lemma_unused_below(used, n - 1, i);
            }
        }
    }
}

proof fn lemma_unused_below(used: Set<int>, n: int, i: int)
    requires
        0 <= i < unused_order(used, n).len(),
    ensures
        unused_order(used, n)[i] matches Origin::Stored(a) && 0 <= a < n,
    decreases n,
{
    if n > 0 {
        if used.contains(n - 1) || i < unused_order(used, n - 1).len() {
            lemma_unused_below(used, n - 1, i);
        }
    }
}

/// Behind the rendered sources stand the stored ones that are left, in the
/// order in which they are stored.
pub proof fn law_left_sources_keep_their_order(
    rendered: Seq<SourceModel>,
    stored: Seq<SourceModel>,
    i: int,
    j: int,
)
    requires
        rendered.len() <= i < j < source_order(rendered, stored).len(),
    ensures
        source_order(rendered, stored)[i] matches Origin::Stored(a) && (source_order(
            rendered,
            stored,
        )[j] matches Origin::Stored(b) && a < b),
{
    let n = rendered.len() as int;
    lemma_used_come_before(rendered, stored, n);
    let used = matched_order(rendered, stored, n).1;
    lemma_unused_ascend(used, stored.len() as int, i - n, j - n);
}

/// The sources of a page are those that it shows and those that it stores:
/// the first ones show the images of the rendered sources, one each, every
/// stored source is among them, and there is no other.
pub proof fn law_sources_show_the_rendered_images(
    rendered: Seq<SourceModel>,
    stored: Seq<SourceModel>,
)
    ensures
        ({
            let all = in_order(source_order(rendered, stored), rendered, stored);
            &&& rendered.len() <= all.len()
            &&& forall|i: int|
                0 <= i < rendered.len() ==> (#[trigger] all[i]).page_id == rendered[i].page_id
                    && all[i].png_title == rendered[i].png_title
            &&& forall|k: int| 0 <= k < stored.len() ==> all.contains(#[trigger] stored[k])
            &&& forall|i: int|
                rendered.len() <= i < all.len() ==> stored.contains(#[trigger] all[i])
        }),
{
    law_every_stored_source_occurs_once(rendered, stored);
    let order = source_order(rendered, stored);
    let all = in_order(order, rendered, stored);
    let n = rendered.len() as int;
    assert forall|i: int| 0 <= i < n implies (#[trigger] all[i]).page_id == rendered[i].page_id
        && all[i].png_title == rendered[i].png_title by {
        match order[i] {
            Origin::Rendered(j) => {
                assert(j == i);
            },
            Origin::Stored(k) => {
                assert(same_image(rendered[i], stored[k]));
            },
        }
    }
    assert forall|k: int| 0 <= k < stored.len() implies all.contains(#[trigger] stored[k]) by {
        assert(order.contains(Origin::Stored(k)));
        let i = choose|i: int| 0 <= i < order.len() && order[i] == Origin::Stored(k);
        assert(all[i] == stored[k]);
    }
    lemma_used_come_before(rendered, stored, n);
    let used = matched_order(rendered, stored, n).1;
    assert forall|i: int| n <= i < all.len() implies stored.contains(#[trigger] all[i]) by {
        lemma_unused_below(used, stored.len() as int, i - n);
        assert(order[i] == unused_order(used, stored.len() as int)[i - n]);
        assert(order[i] matches Origin::Stored(a) && all[i] == stored[a]);
    }
}

// ── Addresses ──────────────────────────────────────────────────────

proof fn lemma_download_place(segments: Seq<Seq<char>>, i: int, k: int)
    requires
        0 <= i <= k,
        k + 4 <= segments.len(),
        segments[k] == "download"@,
        segments[k + 1] == "attachments"@,
        forall|j: int|
            i <= j < k ==> (#[trigger] segments[j]) != "download"@ || segments[j + 1]
                != "attachments"@,
    ensures
        download_place(segments, i) == Some(k),
    decreases k - i,
{
    if i < k {
        assert(segments[i] != "download"@ || segments[i + 1] != "attachments"@);
        lemma_download_place(segments, i + 1, k);
    }
}

/// The page and the title of an attachment are the two segments behind
/// `download/attachments` in its address, decoded, whatever stands in front.
pub proof fn law_attachment_is_told_by_its_address(url: UrlModel, segments: Seq<Seq<char>>, k: int)
    requires
        url.segments() == Some(segments),
        0 <= k,
        k + 4 <= segments.len(),
        percent_decoded(segments[k]) == "download"@,
        percent_decoded(segments[k + 1]) == "attachments"@,
        forall|j: int| 0 <= j < k ==> percent_decoded(#[trigger] segments[j]) != "download"@,
    ensures
        attachment_address(url) == Some(
            (percent_decoded(segments[k + 2]), percent_decoded(segments[k + 3])),
        ),
{
    let decoded = all_decoded(segments);
    assert forall|j: int| 0 <= j < k implies (#[trigger] decoded[j]) != "download"@ || decoded[j
        + 1] != "attachments"@ by {
        assert(percent_decoded(segments[j]) != "download"@);
    }
    lemma_download_place(decoded, 0, k);
}

/// The source of a rendered diagram is read from the address of its image: the
/// image is what the address leads to, and the document is attached to the
/// same page.
pub proof fn law_rendered_source_is_that_of_its_image(
    src: Seq<char>,
    base_url: Seq<char>,
    url: UrlModel,
    page_id: Seq<char>,
    title: Seq<char>,
)
    requires
        url_read(resolved(src, base_url)) == Some(url),
        attachment_address(url) == Some((page_id, title)),
    ensures
        !has_suffix(lower(title), ".png"@) ==> source_of_src(src, base_url) is None,
        has_suffix(lower(title), ".png"@) ==> (source_of_src(src, base_url) matches Some(s) && {
            &&& s.page_id == page_id
            &&& s.png_title == title
            &&& s.png_url == resolved(src, base_url)
            &&& s.xml_file_name matches Some(name) && s.xml_url == Some(
                download_url(
                    base_url,
                    page_id,
                    AttachmentModel {
                        id: Seq::empty(),
                        title: name,
                        media_type: None,
                        download_path: None,
                        webui_path: None,
                    },
                ),
            )
        }),
{
}

/// An image shows a diagram where any of its class names says so, in whatever
/// case.
pub proof fn law_any_class_name_counts(class: Seq<char>, i: int)
    requires
        0 <= i < words(class).len(),
    ensures
        lower(words(class)[i]) == "drawio-diagram-image"@ ==> names_diagram(class),
        !names_diagram(class) ==> lower(words(class)[i]) != "drawio-diagram-image"@,
{
}

// ── Attached files ─────────────────────────────────────────────────

/// A file that is attached is listed with its address, in front of those
/// behind it; one that is not attached is left out.
pub proof fn law_attached_files_are_listed_in_order(
    files: Seq<Seq<char>>,
    attachments: Map<Seq<char>, AttachmentModel>,
    base_url: Seq<char>,
    page_id: Seq<char>,
    n: int,
    i: int,
)
    requires
        0 <= i < n <= files.len(),
    ensures
        ({
            let before = attached_among(files, attachments, base_url, page_id, i);
            let all = attached_among(files, attachments, base_url, page_id, n);
            let exported = exports_attached(files, attachments, i);
            let exports = exports_attached(files, attachments, n);
            if attachments.contains_key(files[i]) {
                let attachment = attachments[files[i]];
                &&& before.len() < all.len()
                &&& all.take(before.len() as int) == before
                &&& all[before.len() as int] == (
                    files[i],
                    download_url(base_url, page_id, attachment),
                )
                &&& exported.len() < exports.len()
                &&& exports.take(exported.len() as int) == exported
                &&& exports[exported.len() as int] == (files[i], attachment)
            } else {
                &&& attached_among(files, attachments, base_url, page_id, i + 1) == before
                &&& exports_attached(files, attachments, i + 1) == exported
            }
        }),
    decreases n,
{
    let before = attached_among(files, attachments, base_url, page_id, i);
    let all = attached_among(files, attachments, base_url, page_id, n);
    let exported = exports_attached(files, attachments, i);
    let exports = exports_attached(files, attachments, n);
    if i < n - 1 {
        law_attached_files_are_listed_in_order(files, attachments, base_url, page_id, n - 1, i);
        let almost = attached_among(files, attachments, base_url, page_id, n - 1);
        let almost_exported = exports_attached(files, attachments, n - 1);
        if attachments.contains_key(files[i]) {
            assert(all.take(before.len() as int) =~= almost.take(before.len() as int));
            assert(exports.take(exported.len() as int) =~= almost_exported.take(
                exported.len() as int,
            ));
        }
    } else if attachments.contains_key(files[i]) {
        assert(all.take(before.len() as int) =~= before);
        assert(exports.take(exported.len() as int) =~= exported);
    }
}

// ── Lists of a page ────────────────────────────────────────────────

/// The texts that a pattern matches are parts of the text, one for each match,
/// in order.
pub proof fn law_matched_texts_are_parts(pattern: Seq<char>, t: Seq<char>, i: int)
    requires
        0 <= i < all_matches(pattern, t).len(),
    ensures
        all_texts(pattern, t).len() == all_matches(pattern, t).len(),
        all_matches(pattern, t)[i].len() > 0 ==> (all_matches(pattern, t)[i][0] matches Some(span)
            ==> all_texts(pattern, t)[i] == t.subrange(span.start as int, span.end as int)),
{
}

/// Every block of a page counts, whatever stands before and behind it: each
/// PlantUML block gives its source and its exported file, each draw.io block
/// its diagram, and each image tag the diagram that it shows.
pub proof fn law_every_block_of_a_page_counts(
    t: Seq<char>,
    base_url: Seq<char>,
    a: Seq<Seq<char>>,
    x: Seq<char>,
    b: Seq<Seq<char>>,
)
    ensures
        all_texts(macro_pattern("plantuml"@), t) == a + seq![x] + b ==> {
            &&& page_sources(Some(t)) == sources_among(a, a.len() as int) + as_list(
                first_group(CODE_BODY@, x, 1),
            ) + sources_among(b, b.len() as int)
            &&& page_exports(Some(t)) == exports_among(a, a.len() as int) + (match macro_param(
                x,
                "exportName"@,
            ) {
                Some(name) => seq![export_file(name, macro_param(x, "format"@))],
                None => Seq::empty(),
            }) + exports_among(b, b.len() as int)
        },
        all_texts(macro_pattern("drawio"@), t) == a + seq![x] + b ==> (match macro_param(
            x,
            "diagramName"@,
        ) {
            Some(name) => page_refs(Some(t)).len() == refs_among(a, a.len() as int).len() + 1
                + refs_among(b, b.len() as int).len() && page_refs(Some(t))[refs_among(
                a,
                a.len() as int,
            ).len() as int].diagram_name == name,
            None => page_refs(Some(t)) == refs_among(a, a.len() as int) + refs_among(
                b,
                b.len() as int,
            ),
        }),
        all_texts(IMAGE_TAG@, t) == a + seq![x] + b ==> rendered_sources(t, base_url)
            == sources_of_tags(a, base_url, a.len() as int) + as_list(source_of_tag(x, base_url))
            + sources_of_tags(b, base_url, b.len() as int),
{
    law_sources_are_listed_in_order(a, x, b);
    law_exports_are_listed_in_order(a, x, b);
    law_refs_are_listed_in_order(a, x, b);
    law_tag_sources_are_listed_in_order(base_url, a, x, b);
    if macro_param(x, "diagramName"@) is None {
        assert(refs_among(a, a.len() as int) + Seq::<DiagramRefModel>::empty() =~= refs_among(
            a,
            a.len() as int,
        ));
    }
}

/// Every diagram that a page refers to is looked for among its attachments,
/// whatever stands before and behind it.
pub proof fn law_every_reference_is_looked_for(
    storage: Seq<char>,
    page_id: Seq<char>,
    base_url: Seq<char>,
    attachments: Map<Seq<char>, AttachmentModel>,
    a: Seq<DiagramRefModel>,
    x: DiagramRefModel,
    b: Seq<DiagramRefModel>,
)
    requires
        page_refs(Some(storage)) == a + seq![x] + b,
    ensures
        stored_sources(Some(storage), page_id, base_url, attachments) == stored_among(
            a,
            page_id,
            base_url,
            attachments,
            a.len() as int,
        ) + as_list(stored_source(x, page_id, base_url, attachments)) + stored_among(
            b,
            page_id,
            base_url,
            attachments,
            b.len() as int,
        ),
{
    law_stored_are_listed_in_order(page_id, base_url, attachments, a, x, b);
}

/// Every image of a page counts, whatever stands before and behind it.
pub proof fn law_every_image_of_a_page_counts(
    t: Seq<char>,
    a: Seq<Seq<Option<Span>>>,
    x: Seq<Option<Span>>,
    b: Seq<Seq<Option<Span>>>,
)
    requires
        all_matches(IMAGE@, t) == a + seq![x] + b,
    ensures
        image_sources_of(t) == image_sources_among(t, a, a.len() as int) + as_list(
            either_group(t, x, 1, 2),
        ) + image_sources_among(t, b, b.len() as int),
{
    law_images_are_listed_in_order(t, a, x, b);
}

} // verus!
