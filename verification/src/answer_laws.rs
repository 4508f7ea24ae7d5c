//! What the server is asked, what is read from its answers and from the
//! address of a page, and how files are named by them.

use vstd::prelude::*;
use vstd::utf8::{decode_utf8, encode_utf8};

use crate::confluence::{
    attachments_address, chosen_lookup, display_page, is_page, is_success, is_wanted,
    last_query_value, lookup_of, page_address, query_value, results_of, search_address, LookupModel,
    PageResult, SPACE_PAGE,
};
use crate::json::{member_from, Json};
use crate::names::{absolute_path, assets_dir, disposition_name, download_name, url_name};
use crate::pattern::first_group;
use crate::percent::{
    law_percent_encoded_is_safe, law_percent_round_trip, percent_decoded_bytes, percent_encoded,
    SEGMENT_MARKS,
};
use crate::text::{has_suffix, opt_view};
use crate::text_laws::law_replacing_a_sign;
use crate::utils::sanitized;
use crate::web::UrlModel;

verus! {

// ── Requests ───────────────────────────────────────────────────────

/// Whether a part of an address stands for a text: it reads back as the text,
/// and holds nothing that parts an address.
pub open spec fn stands_for(part: Seq<char>, t: Seq<char>) -> bool {
    &&& decode_utf8(percent_decoded_bytes(encode_utf8(part))) == t
    &&& forall|i: int|
        0 <= i < part.len() ==> (#[trigger] part[i]) != '/' && part[i] != '?' && part[i] != '&'
            && part[i] != '='
}

proof fn lemma_stands_for(t: Seq<char>)
    ensures
        stands_for(percent_encoded(t, SEGMENT_MARKS@), t),
{
    reveal_strlit("-_.~");
    law_percent_round_trip(t, SEGMENT_MARKS@);
    let part = percent_encoded(t, SEGMENT_MARKS@);
    assert forall|i: int| 0 <= i < part.len() implies (#[trigger] part[i]) != '/' && part[i]
        != '?' && part[i] != '&' && part[i] != '=' by {
        law_percent_encoded_is_safe(t, SEGMENT_MARKS@, i);
    }
}

/// A page and its attachments are asked for by the number of the page, which
/// stands in the address as one segment.
pub proof fn law_page_is_asked_for_by_its_number(base_url: Seq<char>, page_id: Seq<char>)
    ensures
        exists|part: Seq<char>| #[trigger]
            stands_for(part, page_id) && page_address(base_url, page_id) == base_url
                + "/rest/api/content/"@ + part + "?expand=body.storage,body.export_view"@
                && attachments_address(base_url, page_id) == base_url + "/rest/api/content/"@ + part
                + "/child/attachment?limit=1000"@,
{
    lemma_stands_for(page_id);
}

/// A page is searched for by its space and its title, each of which stands in
/// the query as one value.
pub proof fn law_page_is_searched_by_space_and_title(
    base_url: Seq<char>,
    space_key: Seq<char>,
    title: Seq<char>,
)
    ensures
        exists|space: Seq<char>, name: Seq<char>|
            #![trigger stands_for(space, space_key), stands_for(name, title)]
            stands_for(space, space_key) && stands_for(name, title) && search_address(
                base_url,
                space_key,
                title,
            ) == base_url + "/rest/api/content?spaceKey="@ + space + "&title="@ + name
                + "&type=page"@,
{
    lemma_stands_for(space_key);
    lemma_stands_for(title);
}

// ── Answers ────────────────────────────────────────────────────────

/// An answer is a success where its status begins with a two.
pub proof fn law_success_begins_with_two(status: u16)
    ensures
        is_success(status) <==> status / 100 == 2,
{
}

/// A member that stands more than once in an object is the first of them.
pub proof fn law_first_member_counts(
    members: Seq<(Seq<char>, Json)>,
    name: Seq<char>,
    i: int,
    k: int,
)
    requires
        0 <= i <= k < members.len(),
        members[k].0 == name,
        forall|j: int| i <= j < k ==> (#[trigger] members[j]).0 != name,
    ensures
        member_from(members, name, i) == Some(members[k].1),
    decreases k - i,
{
    if i < k {
        assert(members[i].0 != name);
        law_first_member_counts(members, name, i + 1, k);
    }
}

/// The results of an answer are the items of its list; an answer without one
/// has none.
pub proof fn law_results_are_the_items(before: Seq<(Seq<char>, Json)>, v: Json)
    requires
        forall|j: int| 0 <= j < before.len() ==> (#[trigger] before[j]).0 != "results"@,
    ensures
        v matches Json::Array(items) ==> results_of(
            Json::Object(before + seq![("results"@, v)]),
        ) == items,
        !(v is Array) ==> results_of(Json::Object(before + seq![("results"@, v)])).len() == 0,
        results_of(Json::Object(before)).len() == 0,
{
    let members = before + seq![("results"@, v)];
    assert forall|j: int| 0 <= j < before.len() implies (#[trigger] members[j]).0
        != "results"@ by {
        assert(members[j] == before[j]);
    }
    law_first_member_counts(members, "results"@, 0, before.len() as int);
    lemma_no_member(before, "results"@, 0);
}

proof fn lemma_no_member(members: Seq<(Seq<char>, Json)>, name: Seq<char>, i: int)
    requires
        0 <= i,
        forall|j: int| i <= j < members.len() ==> (#[trigger] members[j]).0 != name,
    ensures
        member_from(members, name, i) is None,
    decreases members.len() - i,
{
    if i < members.len() {
        lemma_no_member(members, name, i + 1);
    }
}

/// A page holds what its answer does: the two forms of its body, each from its
/// own member, the title, and the address behind the base.
pub proof fn law_page_holds_the_answer(
    page: PageResult,
    data: Json,
    page_id: Seq<char>,
    base_url: Seq<char>,
    content_json: Seq<char>,
    body: Json,
    stored: Json,
    exported: Json,
    storage: Seq<char>,
    export: Seq<char>,
)
    requires
        is_page(page, data, page_id, base_url, content_json),
        data.get("body"@) == Some(body),
        body.get("storage"@) == Some(stored),
        body.get("export_view"@) == Some(exported),
        stored.get("value"@) == Some(Json::Text(storage)),
        exported.get("value"@) == Some(Json::Text(export)),
    ensures
        page.export_html@ == export,
        opt_view(page.storage_html) == Some(storage),
        page.content_json@ == content_json,
        data.get("title"@) matches Some(Json::Text(title)) ==> page.title@ == title,
        data.get("title"@) is None ==> has_suffix(page.title@, page_id),
        data.get("_links"@) is None ==> page.webui is None,
        data.get("_links"@) matches Some(links) ==> (links.get("webui"@) matches Some(
            Json::Text(path),
        ) ==> opt_view(page.webui) == Some(base_url + path)),
{
    if data.get("title"@) is None {
        let title = "page-"@ + page_id;
        assert(title.subrange(title.len() - page_id.len(), title.len() as int) =~= page_id);
    }
}

/// An image is downloaded only where no local file is known for it.
pub proof fn law_known_images_are_not_wanted(
    src: Seq<char>,
    local: Map<Seq<char>, Seq<char>>,
    prefix: Seq<char>,
    file: Seq<char>,
)
    ensures
        !is_wanted(src, local.insert(src, file), prefix),
        forall|other: Seq<char>|
            other != src ==> (#[trigger] is_wanted(other, local.insert(src, file), prefix)
                <==> is_wanted(other, local, prefix)),
{
}

// ── Addresses of pages ─────────────────────────────────────────────

/// A page is looked up by its number where the address tells one, first in its
/// query and then in its path; by space and title otherwise, first those of
/// the query. A plus sign in the path stands for a blank.
pub proof fn law_lookup_by_the_first_that_is_told(
    id: Seq<char>,
    number: Option<Seq<char>>,
    space: Option<Seq<char>>,
    title: Option<Seq<char>>,
    display: Option<(Seq<char>, Seq<char>)>,
    s: Seq<char>,
    t: Seq<char>,
)
    ensures
        chosen_lookup(Some(id), number, space, title, display) == Some(LookupModel::Id(id)),
        chosen_lookup(None, Some(id), space, title, display) == Some(LookupModel::Id(id)),
        chosen_lookup(None, None, Some(s), Some(t), display) == Some(LookupModel::Search(s, t)),
        space is None || title is None ==> chosen_lookup(None, None, space, title, None) is None,
        space is None || title is None ==> (chosen_lookup(None, None, space, title, Some((s, t)))
            matches Some(LookupModel::Search(key, name)) && key == s && name == Seq::new(
            t.len(),
            |i: int|
                if t[i] == '+' {
                    ' '
                } else {
                    t[i]
                },
        )),
{
    reveal_strlit("+");
    reveal_strlit(" ");
    assert("+"@ =~= seq!['+']);
    assert(" "@ =~= seq![' ']);
    law_replacing_a_sign(t, '+', ' ');
}

/// What a page is looked up by stands in its address: the number in the query
/// or in the path, the space and the title in the query, or both in the path.
pub proof fn law_lookup_is_read_from_the_address(url: UrlModel)
    ensures
        query_value(url.query, "pageId"@, 0) matches Some(id) ==> lookup_of(url) == Some(
            LookupModel::Id(id),
        ),
        query_value(url.query, "pageId"@, 0) is None ==> (first_group(
            SPACE_PAGE@,
            url.path,
            1,
        ) matches Some(id) ==> lookup_of(url) == Some(LookupModel::Id(id))),
        query_value(url.query, "pageId"@, 0) is None && first_group(SPACE_PAGE@, url.path, 1) is None
            && display_page(url.path) is None ==> match (
            last_query_value(url.query, "spaceKey"@, url.query.len() as int),
            last_query_value(url.query, "title"@, url.query.len() as int),
        ) {
            (Some(space), Some(title)) => lookup_of(url) == Some(
                LookupModel::Search(space, title),
            ),
            _ => lookup_of(url) is None,
        },
{
}

// ── Names ──────────────────────────────────────────────────────────

/// A download is called as the server says, whatever its address; the address
/// counts where the server says nothing.
pub proof fn law_server_names_the_download(
    url: Seq<char>,
    other: Seq<char>,
    header: Seq<char>,
    name: Seq<char>,
)
    ensures
        disposition_name(header) == Some(name) ==> download_name(url, Some(header)) == Some(name)
            && download_name(url, Some(header)) == download_name(other, Some(header)),
        disposition_name(header) is None ==> download_name(url, Some(header)) == download_name(
            url,
            None,
        ),
        download_name(url, None) == url_name(url),
{
}

/// A path from the root stays as it is, and any other is taken from the
/// current directory, at its end.
pub proof fn law_absolute_path_ends_with_the_path(path: Seq<char>, dir: Seq<char>)
    ensures
        has_suffix(absolute_path(path, Some(dir)), path),
        absolute_path(path, None) == path,
        path.len() > 0 && path[0] == '/' ==> absolute_path(path, Some(dir)) == path,
        dir.len() > 0 && dir[0] == '/' ==> absolute_path(path, Some(dir))[0] == '/',
{
    let whole = absolute_path(path, Some(dir));
    assert(whole.subrange(whole.len() - path.len(), whole.len() as int) =~= path);
}

/// The assets of a page stand in a directory that is named by its title, or by
/// its number where it has none.
pub proof fn law_assets_are_named_by_the_page(page_id: Seq<char>, title: Seq<char>)
    ensures
        has_suffix(assets_dir(page_id, title), "_assets"@),
        title.len() > 0 ==> assets_dir(page_id, title) == sanitized(title) + "_assets"@,
        assets_dir(page_id, Seq::empty()) == assets_dir(page_id, "page-"@ + page_id),
{
    reveal_strlit("page-");
    let dir = assets_dir(page_id, title);
    let suffix = "_assets"@;
    assert(dir.subrange(dir.len() - suffix.len(), dir.len() as int) =~= suffix);
}

} // verus!
