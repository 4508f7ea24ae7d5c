//! Confluence pages and attachments: the addresses to ask for, and what the
//! answers say.

use vstd::hash_map::StringHashMap;
use vstd::prelude::*;
use vstd::string::StringExecFns;

use crate::json::{json_read, parse_json, Json, JsonValue};
use crate::lookup::{NameSet, TextMap};
use crate::names::{
    asset_path, download_name, get_file_name_from_url_or_headers, is_free_name,
    to_markdown_asset_path, wanted_name, HeaderHints,
};
use crate::pattern::{
    all_matches, find_all, find_first, first_group, first_group_of, first_match, fits, found_views,
    group, group_text, is_match, law_rewriting_by_itself, rewrite, rewritten, well_placed,
    whole_text, Found, Span,
};
use crate::percent::{
    percent_decode, percent_decoded, percent_encode, percent_encoded, SEGMENT_MARKS,
};
use crate::text::{
    chars_of, decimal, has_prefix, joined, opt_view, push_decimal, replace, replaced, same_text,
    starts_with, str_view, views,
};
use crate::web::{parse_url, resolve_url, resolved, url_read, UrlModel, UrlParts};

verus! {

// ── Types ──────────────────────────────────────────────────────────

/// What the program needs from its environment.
#[derive(Debug, Clone)]
pub struct EnvConfig {
    pub personal_access_token: String,
}

/// A page as Confluence answers it.
#[derive(Debug, Clone)]
pub struct PageResult {
    pub title: String,
    pub content_json: String,
    pub storage_html: Option<String>,
    pub export_html: String,
    pub webui: Option<String>,
}

/// A file attached to a page.
#[derive(Debug, Clone)]
pub struct Attachment {
    pub id: String,
    pub title: String,
    pub media_type: Option<String>,
    pub download_path: Option<String>,
    pub webui_path: Option<String>,
}

/// What an attachment is.
pub struct AttachmentModel {
    pub id: Seq<char>,
    pub title: Seq<char>,
    pub media_type: Option<Seq<char>>,
    pub download_path: Option<Seq<char>>,
    pub webui_path: Option<Seq<char>>,
}

impl View for Attachment {
    type V = AttachmentModel;

    open spec fn view(&self) -> AttachmentModel {
        AttachmentModel {
            id: self.id@,
            title: self.title@,
            media_type: opt_view(self.media_type),
            download_path: opt_view(self.download_path),
            webui_path: opt_view(self.webui_path),
        }
    }
}

/// A copy of an optional text.
pub fn copy_text(o: &Option<String>) -> (r: Option<String>)
    ensures
        opt_view(r) == opt_view(*o),
{
    match o {
        Some(s) => Some(s.clone()),
        None => None,
    }
}

impl Attachment {
    /// A copy of the attachment.
    pub fn copy(&self) -> (r: Attachment)
        ensures
            r@ == self@,
    {
        Attachment {
            id: self.id.clone(),
            title: self.title.clone(),
            media_type: copy_text(&self.media_type),
            download_path: copy_text(&self.download_path),
            webui_path: copy_text(&self.webui_path),
        }
    }
}

/// Attachments by their title.
pub struct AttachmentMaps {
    pub by_title: StringHashMap<Attachment>,
}

/// What went wrong in talking to Confluence.
#[derive(Debug)]
pub enum ConfluenceError {
    MissingToken,
    Api { status: u16, reason: String, body: String },
    Binary { status: u16, reason: String, url: String },
    BadJson { text: String },
    NoExportView { keys: Vec<String> },
    PageNotFound { space: String, title: String },
    BadPageId,
    BadUrl,
    NoPageId { url: String },
}

/// Texts with a separator between them, the first `n` of them.
pub open spec fn listed(v: Seq<Seq<char>>, separator: Seq<char>, n: int) -> Seq<char>
    decreases n,
{
    if n <= 0 {
        Seq::empty()
    } else if n == 1 {
        v[0]
    } else {
        listed(v, separator, n - 1) + separator + v[n - 1]
    }
}

/// Joins texts with a separator.
pub fn join_texts(v: &Vec<String>, separator: &str) -> (r: String)
    ensures
        r@ == listed(views(v@), separator@, v@.len() as int),
{
    let ghost all = views(v@);
    let mut out: String = String::new();
    let mut i: usize = 0;
    while i < v.len()
        invariant
            all == views(v@),
            i <= v.len(),
            out@ == listed(all, separator@, i as int),
        decreases v.len() - i,
    {
        assert(all[i as int] == v@[i as int]@);
        if i == 0 {
            out = v[0].clone();
        } else {
            out.append(separator);
            out.append(&v[i]);
        }
        i += 1;
    }
    out
}

impl ConfluenceError {
    /// The error in words.
    pub open spec fn words(self) -> Seq<char> {
        match self {
            ConfluenceError::MissingToken =>
                "Missing environment variable: CONFLUENCE2MD_PERSONAL_ACCESS_TOKEN."@,
            ConfluenceError::Api { status, reason, body } => "Confluence API error: "@ + decimal(
                status as nat,
            ) + " "@ + reason@ + "\n"@ + body@,
            ConfluenceError::Binary { status, reason, url } => "Failed to fetch binary: "@
                + decimal(status as nat) + " "@ + reason@ + " "@ + url@,
            ConfluenceError::BadJson { text } => "Failed to parse JSON response:\n"@ + text@,
            ConfluenceError::NoExportView { keys } =>
                "export_view body not available. Response keys: "@ + listed(
                views(keys@),
                ", "@,
                keys@.len() as int,
            ),
            ConfluenceError::PageNotFound { space, title } => "Page not found for spaceKey=\""@
                + space@ + "\" title=\""@ + title@ + "\""@,
            ConfluenceError::BadPageId => "Unexpected page id type in response"@,
            ConfluenceError::BadUrl => "invalid URL"@,
            ConfluenceError::NoPageId { url } => "Cannot determine page ID from URL: "@ + url@,
        }
    }

    /// The error in words.
    pub fn message(&self) -> (r: String)
        ensures
            r@ == self.words(),
    {
        match self {
            ConfluenceError::MissingToken =>
                "Missing environment variable: CONFLUENCE2MD_PERSONAL_ACCESS_TOKEN.".to_owned(),
            ConfluenceError::Api { status, reason, body } => {
                let mut out: String = "Confluence API error: ".to_owned();
                push_decimal(&mut out, *status as usize);
                out.append(" ");
                out.append(reason);
                out.append("\n");
                out.append(body);
                out
            },
            ConfluenceError::Binary { status, reason, url } => {
                let mut out: String = "Failed to fetch binary: ".to_owned();
                push_decimal(&mut out, *status as usize);
                out.append(" ");
                out.append(reason);
                out.append(" ");
                out.append(url);
                out
            },
            ConfluenceError::BadJson { text } => joined("Failed to parse JSON response:\n", text),
            ConfluenceError::NoExportView { keys } => joined(
                "export_view body not available. Response keys: ",
                &join_texts(keys, ", "),
            ),
            ConfluenceError::PageNotFound { space, title } => {
                let mut out: String = "Page not found for spaceKey=\"".to_owned();
                out.append(space);
                out.append("\" title=\"");
                out.append(title);
                out.append("\"");
                out
            },
            ConfluenceError::BadPageId => "Unexpected page id type in response".to_owned(),
            ConfluenceError::BadUrl => "invalid URL".to_owned(),
            ConfluenceError::NoPageId { url } => joined(
                "Cannot determine page ID from URL: ",
                url,
            ),
        }
    }
}

// ── Environment and answers ────────────────────────────────────────

/// The configuration for a token from the environment.
pub fn required_env(token: Option<String>) -> (r: Result<EnvConfig, ConfluenceError>)
    ensures
        match r {
            Ok(c) => opt_view(token) == Some(c.personal_access_token@),
            Err(e) => token is None && e is MissingToken,
        },
{
    match token {
        Some(t) => Ok(EnvConfig { personal_access_token: t }),
        None => Err(ConfluenceError::MissingToken),
    }
}

/// The value of the authorization header for a token.
pub fn bearer(token: &str) -> (r: String)
    ensures
        r@ == "Bearer "@ + token@,
{
    joined("Bearer ", token)
}

/// Whether an HTTP status says that a request succeeded.
pub open spec fn is_success(status: u16) -> bool {
    200 <= status < 300
}

/// The body of a successful answer; an error that tells status and body for
/// any other.
pub fn checked_answer(status: u16, reason: String, body: String) -> (r: Result<
    String,
    ConfluenceError,
>)
    ensures
        match r {
            Ok(t) => is_success(status) && t == body,
            Err(e) => !is_success(status) && e == (ConfluenceError::Api { status, reason, body }),
        },
{
    if 200 <= status && status < 300 {
        Ok(body)
    } else {
        Err(ConfluenceError::Api { status, reason, body })
    }
}

/// Checks the answer to a download.
pub fn checked_download(status: u16, reason: String, url: &str) -> (r: Result<(), ConfluenceError>)
    ensures
        match r {
            Ok(_) => is_success(status),
            Err(ConfluenceError::Binary { status: s, reason: w, url: u }) => !is_success(status)
                && s == status && w == reason && u@ == url@,
            Err(_) => false,
        },
{
    if 200 <= status && status < 300 {
        Ok(())
    } else {
        Err(ConfluenceError::Binary { status, reason, url: url.to_owned() })
    }
}

/// Reads a JSON answer.
pub fn parse_json_text(text: &str) -> (r: Result<JsonValue, ConfluenceError>)
    ensures
        match r {
            Ok(v) => json_read(text@) == Some(v@),
            Err(ConfluenceError::BadJson { text: t }) => json_read(text@) is None && t@ == text@,
            Err(_) => false,
        },
{
    match parse_json(text) {
        Some(v) => Ok(v),
        None => Err(ConfluenceError::BadJson { text: text.to_owned() }),
    }
}

// ── Pages ──────────────────────────────────────────────────────────

/// A text as one segment of a path.
pub fn encode_path_segment(s: &str) -> (r: String)
    ensures
        r@ == percent_encoded(s@, SEGMENT_MARKS@),
{
    percent_encode(s, SEGMENT_MARKS)
}

/// A text as the value of a query.
pub fn encode_query_value(s: &str) -> (r: String)
    ensures
        r@ == percent_encoded(s@, SEGMENT_MARKS@),
{
    percent_encode(s, SEGMENT_MARKS)
}

/// The address of a page, with both of its bodies.
pub open spec fn page_address(base_url: Seq<char>, page_id: Seq<char>) -> Seq<char> {
    base_url + "/rest/api/content/"@ + percent_encoded(page_id, SEGMENT_MARKS@)
        + "?expand=body.storage,body.export_view"@
}

/// The address of a page, with both of its bodies.
pub fn page_url(base_url: &str, page_id: &str) -> (r: String)
    ensures
        r@ == page_address(base_url@, page_id@),
{
    let mut out: String = base_url.to_owned();
    out.append("/rest/api/content/");
    out.append(&encode_path_segment(page_id));
    out.append("?expand=body.storage,body.export_view");
    out
}

/// The text of a body of a page.
pub open spec fn body_text(data: Json, which: Seq<char>) -> Option<Seq<char>> {
    match data.get("body"@) {
        Some(body) => match body.get(which) {
            Some(b) => b.get_text("value"@),
            None => None,
        },
        None => None,
    }
}

fn find_body_text(data: &JsonValue, which: &str) -> (r: Option<String>)
    ensures
        opt_view(r) == body_text(data@, which@),
{
    match data.get("body") {
        Some(body) => match body.get(which) {
            Some(b) => match b.get_text("value") {
                Some(s) => Some(s.clone()),
                None => None,
            },
            None => None,
        },
        None => None,
    }
}

/// The names of the members of an object; none for another value.
pub open spec fn member_names(data: Json) -> Seq<Seq<char>> {
    match data {
        Json::Object(members) => Seq::new(members.len(), |i: int| members[i].0),
        _ => Seq::empty(),
    }
}

fn list_member_names(data: &JsonValue) -> (r: Vec<String>)
    ensures
        views(r@) == member_names(data@),
{
    let mut out: Vec<String> = Vec::new();
    match data {
        JsonValue::Object(members) => {
            let ghost names = member_names(data@);
            let mut i: usize = 0;
            while i < members.len()
                invariant
                    names.len() == members.len(),
                    forall|k: int| 0 <= k < names.len() ==> #[trigger] names[k] == members[k].name@,
                    i <= members.len(),
                    out.len() == i,
                    forall|k: int| 0 <= k < i ==> (#[trigger] out[k])@ == names[k],
                decreases members.len() - i,
            {
                out.push(members[i].name.clone());
                i += 1;
            }
            assert(views(out@) =~= names);
        },
        _ => {
            assert(views(out@) =~= Seq::empty());
        },
    }
    out
}

/// The address at which people see a page.
pub open spec fn page_webui(data: Json, base_url: Seq<char>) -> Option<Seq<char>> {
    match data.get("_links"@) {
        Some(links) => match links.get_text("webui"@) {
            Some(s) => Some(base_url + s),
            None => None,
        },
        None => None,
    }
}

/// Whether a page is what an answer says.
pub open spec fn is_page(
    page: PageResult,
    data: Json,
    page_id: Seq<char>,
    base_url: Seq<char>,
    content_json: Seq<char>,
) -> bool {
    &&& page.title@ == match data.get_text("title"@) {
        Some(t) => t,
        None => "page-"@ + page_id,
    }
    &&& page.content_json@ == content_json
    &&& opt_view(page.storage_html) == body_text(data, "storage"@)
    &&& body_text(data, "export_view"@) == Some(page.export_html@)
    &&& opt_view(page.webui) == page_webui(data, base_url)
}

/// The page that an answer tells. Without an export view there is none.
pub fn read_page(data: &JsonValue, page_id: &str, base_url: &str, content_json: &str) -> (r: Result<
    PageResult,
    ConfluenceError,
>)
    ensures
        match r {
            Ok(page) => is_page(page, data@, page_id@, base_url@, content_json@),
            Err(ConfluenceError::NoExportView { keys }) => body_text(data@, "export_view"@) is None
                && views(keys@) == member_names(data@),
            Err(_) => false,
        },
{
    let export_html = match find_body_text(data, "export_view") {
        Some(s) => s,
        None => {
            return Err(ConfluenceError::NoExportView { keys: list_member_names(data) });
        },
    };
    let title = match data.get_text("title") {
        Some(t) => t.clone(),
        None => joined("page-", page_id),
    };
    let webui = match data.get("_links") {
        Some(links) => match links.get_text("webui") {
            Some(s) => Some(joined(base_url, s)),
            None => None,
        },
        None => None,
    };
    Ok(
        PageResult {
            title,
            content_json: content_json.to_owned(),
            storage_html: find_body_text(data, "storage"),
            export_html,
            webui,
        },
    )
}

/// The page that the text of an answer tells.
pub fn parse_page(content_json: &str, page_id: &str, base_url: &str) -> (r: Result<
    PageResult,
    ConfluenceError,
>)
    ensures
        match json_read(content_json@) {
            Some(data) => match r {
                Ok(page) => is_page(page, data, page_id@, base_url@, content_json@),
                Err(ConfluenceError::NoExportView { keys }) => body_text(
                    data,
                    "export_view"@,
                ) is None && views(keys@) == member_names(data),
                Err(_) => false,
            },
            None => r matches Err(ConfluenceError::BadJson { text }) && text@ == content_json@,
        },
{
    match parse_json_text(content_json) {
        Ok(data) => read_page(&data, page_id, base_url, content_json),
        Err(e) => Err(e),
    }
}

// ── Attachments ────────────────────────────────────────────────────

/// The address of the attachments of a page.
pub open spec fn attachments_address(base_url: Seq<char>, page_id: Seq<char>) -> Seq<char> {
    base_url + "/rest/api/content/"@ + percent_encoded(page_id, SEGMENT_MARKS@)
        + "/child/attachment?limit=1000"@
}

/// The address of the attachments of a page.
pub fn attachments_url(base_url: &str, page_id: &str) -> (r: String)
    ensures
        r@ == attachments_address(base_url@, page_id@),
{
    let mut out: String = base_url.to_owned();
    out.append("/rest/api/content/");
    out.append(&encode_path_segment(page_id));
    out.append("/child/attachment?limit=1000");
    out
}

/// A field of a record. A record is an object, or an array that holds its
/// five fields in order, of which the last three may be missing.
pub open spec fn record_field(record: Json, name: Seq<char>, place: int) -> Option<Json> {
    match record {
        Json::Array(items) => if 2 <= items.len() <= 5 && place < items.len() {
            Some(items[place])
        } else {
            None
        },
        _ => record.get(name),
    }
}

/// The text of a field of a record.
pub open spec fn record_text(record: Json, name: Seq<char>, place: int) -> Option<Seq<char>> {
    match record_field(record, name, place) {
        Some(v) => v.as_text(),
        None => None,
    }
}

/// The text of a member of a field of a record.
pub open spec fn record_member(
    record: Json,
    name: Seq<char>,
    place: int,
    member: Seq<char>,
) -> Option<Seq<char>> {
    match record_field(record, name, place) {
        Some(v) => v.get_text(member),
        None => None,
    }
}

/// The attachment that a record tells; none where it has no texts for
/// identifier and title.
pub open spec fn attachment_of(record: Json) -> Option<AttachmentModel> {
    match (record_text(record, "id"@, 0), record_text(record, "title"@, 1)) {
        (Some(id), Some(title)) => Some(
            AttachmentModel {
                id,
                title,
                media_type: match record_member(record, "metadata"@, 2, "mediaType"@) {
                    Some(t) => Some(t),
                    None => record_member(record, "extensions"@, 3, "mediaType"@),
                },
                download_path: record_member(record, "_links"@, 4, "download"@),
                webui_path: record_member(record, "_links"@, 4, "webui"@),
            },
        ),
        _ => None,
    }
}

fn find_field<'a>(record: &'a JsonValue, name: &str, place: usize) -> (r: Option<&'a JsonValue>)
    ensures
        match r {
            Some(v) => record_field(record@, name@, place as int) == Some(v@),
            None => record_field(record@, name@, place as int) is None,
        },
{
    match record.as_items() {
        Some(items) => {
            let ghost all = record@.as_items()->0;
            assert(all.len() == items@.len());
            if 2 <= items.len() && items.len() <= 5 && place < items.len() {
                assert(all[place as int] == items@[place as int]@);
                Some(&items[place])
            } else {
                None
            }
        },
        None => record.get(name),
    }
}

fn find_member(record: &JsonValue, name: &str, place: usize, member: &str) -> (r: Option<String>)
    ensures
        opt_view(r) == record_member(record@, name@, place as int, member@),
{
    match find_field(record, name, place) {
        Some(v) => match v.get_text(member) {
            Some(s) => Some(s.clone()),
            None => None,
        },
        None => None,
    }
}

fn find_text(record: &JsonValue, name: &str, place: usize) -> (r: Option<String>)
    ensures
        opt_view(r) == record_text(record@, name@, place as int),
{
    match find_field(record, name, place) {
        Some(v) => match v.as_text() {
            Some(s) => Some(s.clone()),
            None => None,
        },
        None => None,
    }
}

/// The attachment that a record tells.
pub fn read_attachment(record: &JsonValue) -> (r: Option<Attachment>)
    ensures
        match r {
            Some(a) => attachment_of(record@) == Some(a@),
            None => attachment_of(record@) is None,
        },
{
    match (find_text(record, "id", 0), find_text(record, "title", 1)) {
        (Some(id), Some(title)) => {
            let media_type = match find_member(record, "metadata", 2, "mediaType") {
                Some(t) => Some(t),
                None => find_member(record, "extensions", 3, "mediaType"),
            };
            Some(
                Attachment {
                    id,
                    title,
                    media_type,
                    download_path: find_member(record, "_links", 4, "download"),
                    webui_path: find_member(record, "_links", 4, "webui"),
                },
            )
        },
        _ => None,
    }
}

/// The results that an answer lists; none where it lists none.
pub open spec fn results_of(data: Json) -> Seq<Json> {
    match data.get("results"@) {
        Some(v) => match v.as_items() {
            Some(items) => items,
            None => Seq::empty(),
        },
        None => Seq::empty(),
    }
}

/// The attachments that the first `n` records tell.
pub open spec fn attachments_among(records: Seq<Json>, n: int) -> Seq<AttachmentModel>
    decreases n,
{
    if n <= 0 {
        Seq::empty()
    } else {
        match attachment_of(records[n - 1]) {
            Some(a) => attachments_among(records, n - 1).push(a),
            None => attachments_among(records, n - 1),
        }
    }
}

/// What a list of attachments is.
pub open spec fn attachment_views(v: Seq<Attachment>) -> Seq<AttachmentModel> {
    Seq::new(v.len(), |i: int| v[i]@)
}

/// The attachments that an answer tells. Records that are no attachments are
/// passed over.
pub fn read_attachments(data: &JsonValue) -> (r: Vec<Attachment>)
    ensures
        attachment_views(r@) == attachments_among(
            results_of(data@),
            results_of(data@).len() as int,
        ),
{
    let mut out: Vec<Attachment> = Vec::new();
    assert(attachment_views(out@) =~= Seq::empty());
    let items = match data.get("results") {
        Some(v) => match v.as_items() {
            Some(items) => items,
            None => {
                return out;
            },
        },
        None => {
            return out;
        },
    };
    let ghost records = results_of(data@);
    assert(records == Seq::new(items@.len(), |i: int| items@[i]@));
    let mut i: usize = 0;
    while i < items.len()
        invariant
            records == Seq::new(items@.len(), |i: int| items@[i]@),
            i <= items.len(),
            attachment_views(out@) == attachments_among(records, i as int),
        decreases items.len() - i,
    {
        assert(records[i as int] == items@[i as int]@);
        let ghost before = attachment_views(out@);
        if let Some(a) = read_attachment(&items[i]) {
            let ghost model = a@;
            out.push(a);
            assert(attachment_views(out@) =~= before.push(model));
        }
        i += 1;
    }
    out
}

/// The address of an attachment's content.
pub open spec fn download_url(
    base_url: Seq<char>,
    page_id: Seq<char>,
    attachment: AttachmentModel,
) -> Seq<char> {
    match attachment.download_path {
        Some(p) => resolved(p, base_url),
        None => base_url + "/download/attachments/"@ + percent_encoded(page_id, SEGMENT_MARKS@)
            + "/"@ + percent_encoded(attachment.title, SEGMENT_MARKS@),
    }
}

/// The address of an attachment's content: the path that Confluence tells,
/// else the usual one.
pub fn attachment_download_url(base_url: &str, page_id: &str, attachment: &Attachment) -> (r:
    String)
    ensures
        r@ == download_url(base_url@, page_id@, attachment@),
{
    if let Some(p) = &attachment.download_path {
        return resolve_url(p, base_url);
    }
    let mut out: String = base_url.to_owned();
    out.append("/download/attachments/");
    out.append(&encode_path_segment(page_id));
    out.append("/");
    out.append(&encode_path_segment(&attachment.title));
    out
}

/// What a map of attachments is.
pub open spec fn titled(m: Map<Seq<char>, Attachment>) -> Map<Seq<char>, AttachmentModel> {
    m.map_values(|a: Attachment| a@)
}

/// The first `n` attachments by title; a later one with the same title wins.
pub open spec fn by_title(list: Seq<AttachmentModel>, n: int) -> Map<Seq<char>, AttachmentModel>
    decreases n,
{
    if n <= 0 {
        Map::empty()
    } else {
        by_title(list, n - 1).insert(list[n - 1].title, list[n - 1])
    }
}

/// Orders attachments by title.
pub fn build_attachment_maps(attachments: &[Attachment]) -> (r: AttachmentMaps)
    ensures
        titled(r.by_title@) == by_title(
            attachment_views(attachments@),
            attachments@.len() as int,
        ),
{
    let ghost all = attachment_views(attachments@);
    let mut map: StringHashMap<Attachment> = StringHashMap::new();
    assert(titled(map@) =~= Map::empty());
    let mut i: usize = 0;
    while i < attachments.len()
        invariant
            all == attachment_views(attachments@),
            i <= attachments.len(),
            titled(map@) == by_title(all, i as int),
        decreases attachments.len() - i,
    {
        let ghost before = map@;
        let a = &attachments[i];
        assert(all[i as int] == a@);
        map.insert(a.title.clone(), a.copy());
        assert(titled(map@) =~= titled(before).insert(a@.title, a@));
        i += 1;
    }
    AttachmentMaps { by_title: map }
}

proof fn lemma_by_title(list: Seq<AttachmentModel>, n: int, title: Seq<char>)
    requires
        0 <= n <= list.len(),
    ensures
        by_title(list, n).contains_key(title) <==> exists|i: int|
            0 <= i < n && (#[trigger] list[i]).title == title,
        by_title(list, n).contains_key(title) ==> exists|i: int|
            0 <= i < n && (#[trigger] list[i]).title == title && by_title(list, n)[title]
                == list[i] && forall|j: int|
                i < j < n ==> (#[trigger] list[j]).title != title,
    decreases n,
{
    if n > 0 {
        lemma_by_title(list, n - 1, title);
        if list[n - 1].title == title {
            assert(by_title(list, n)[title] == list[n - 1]);
        } else if by_title(list, n - 1).contains_key(title) {
            let i = choose|i: int|
                0 <= i < n - 1 && (#[trigger] list[i]).title == title && by_title(list, n - 1)[title]
                    == list[i] && forall|j: int|
                    i < j < n - 1 ==> (#[trigger] list[j]).title != title;
            assert(list[i].title == title && by_title(list, n)[title] == list[i]);
        }
    }
}

/// Every title that occurs is found, and the last attachment with a title is
/// the one that is found.
pub proof fn law_last_attachment_wins(list: Seq<AttachmentModel>, title: Seq<char>)
    ensures
        ({
            let m = by_title(list, list.len() as int);
            &&& m.contains_key(title) <==> exists|i: int|
                0 <= i < list.len() && (#[trigger] list[i]).title == title
            &&& m.contains_key(title) ==> exists|i: int|
                0 <= i < list.len() && (#[trigger] list[i]).title == title && m[title] == list[i]
                    && forall|j: int| i < j < list.len() ==> (#[trigger] list[j]).title != title
        }),
{
    lemma_by_title(list, list.len() as int, title);
}

// ── Downloads ──────────────────────────────────────────────────────

/// A file to download.
pub struct DownloadBinaryOptions<'a> {
    pub url: &'a str,
    pub token: &'a str,
    pub assets_abs_dir: &'a str,
    pub markdown_image_prefix: &'a str,
    pub fallback_base_name: &'a str,
    pub used_names: &'a mut NameSet,
}

/// An attachment to download.
pub struct DownloadAttachmentOptions<'a> {
    pub page_id: &'a str,
    pub attachment: &'a Attachment,
    pub base_url: &'a str,
    pub token: &'a str,
    pub assets_abs_dir: &'a str,
    pub markdown_image_prefix: &'a str,
    pub used_names: &'a mut NameSet,
}

/// The images of a page to download.
pub struct DownloadImagesOptions<'a> {
    pub base_url: &'a str,
    pub personal_access_token: &'a str,
    pub assets_abs_dir: &'a str,
    pub markdown_image_prefix: &'a str,
    pub used_names: &'a mut NameSet,
}

/// Where a download goes.
#[derive(Debug)]
pub struct AssetPlace {
    pub file_name: String,
    pub markdown_path: String,
}

/// Chooses the file for a download from the headers of its answer, and marks
/// its name as used.
pub fn place_download(opts: DownloadBinaryOptions<'_>, headers: &HeaderHints<'_>) -> (r: AssetPlace)
    requires
        old(opts.used_names).count() < u32::MAX,
    ensures
        is_free_name(
            r.file_name@,
            wanted_name(
                download_name(opts.url@, str_view(headers.content_disposition)),
                opts.fallback_base_name@,
                str_view(headers.content_type),
            ),
            old(opts.used_names)@,
        ),
        !old(opts.used_names)@.contains(r.file_name@),
        r.markdown_path@ == asset_path(opts.markdown_image_prefix@, r.file_name@),
        final(opts.used_names)@ == old(opts.used_names)@.insert(r.file_name@),
        final(opts.used_names).count() == old(opts.used_names).count() + 1,
{
    let file_name = get_file_name_from_url_or_headers(
        opts.url,
        headers,
        opts.fallback_base_name,
        opts.used_names,
    );
    let markdown_path = to_markdown_asset_path(opts.markdown_image_prefix, &file_name);
    AssetPlace { file_name, markdown_path }
}

/// A file to ask for, and what it is called where nothing else names it.
#[derive(Debug)]
pub struct Download {
    pub url: String,
    pub fallback_base_name: String,
}

/// What to ask for to get an attachment.
pub fn plan_attachment(opts: &DownloadAttachmentOptions<'_>) -> (r: Download)
    ensures
        r.url@ == download_url(opts.base_url@, opts.page_id@, opts.attachment@),
        r.fallback_base_name@ == if opts.attachment.title@.len() == 0 {
            "attachment"@
        } else {
            opts.attachment.title@
        },
{
    let url = attachment_download_url(opts.base_url, opts.page_id, opts.attachment);
    let fallback_base_name = if chars_of(&opts.attachment.title).len() == 0 {
        "attachment".to_owned()
    } else {
        opts.attachment.title.clone()
    };
    Download { url, fallback_base_name }
}

// ── Images ─────────────────────────────────────────────────────────

/// The pattern of an image: its source, in double or in single quotes.
pub const IMAGE: &'static str = r#"(?is)<img\b[^>]*\bsrc=(?:"([^"]*)"|'([^']*)')[^>]*>"#;

/// The pattern of an address of the PlantUML service.
pub const PLANTUML_SERVICE: &'static str = r"(?i)/rest/plantuml/";

/// The pattern of an image up to its source: what stands before, the opening mark,
/// the source, the closing mark.
pub const IMAGE_SOURCE: &'static str = r#"(?is)(<img\b[^>]*\bsrc=)(["'])(.*?)(["'])"#;

/// The first of two groups that took part in a match.
pub open spec fn either_group(t: Seq<char>, m: Seq<Option<Span>>, a: int, b: int) -> Option<
    Seq<char>,
> {
    match group(t, m, a) {
        Some(g) => Some(g),
        None => group(t, m, b),
    }
}

/// The first of two groups that took part in a match.
pub fn find_either_group(t: &[char], m: &Found, a: usize, b: usize) -> (r: Option<String>)
    requires
        fits(t@.len(), m@),
    ensures
        opt_view(r) == either_group(t@, m@, a as int, b as int),
{
    match m.group(t, a) {
        Some(g) => Some(g),
        None => m.group(t, b),
    }
}

/// The sources of the images among the first `n` matches.
pub open spec fn sources_among(t: Seq<char>, ms: Seq<Seq<Option<Span>>>, n: int) -> Seq<Seq<char>>
    decreases n,
{
    if n <= 0 {
        Seq::empty()
    } else {
        match either_group(t, ms[n - 1], 1, 2) {
            Some(src) => sources_among(t, ms, n - 1).push(src),
            None => sources_among(t, ms, n - 1),
        }
    }
}

/// The sources of the images of a page, in order.
pub open spec fn image_sources_of(t: Seq<char>) -> Seq<Seq<char>> {
    let ms = all_matches(IMAGE@, t);
    sources_among(t, ms, ms.len() as int)
}

/// The sources of the images of a page, in order.
pub fn image_sources(html: &str) -> (r: Vec<String>)
    ensures
        views(r@) == image_sources_of(html@),
{
    let t = chars_of(html);
    let ms = find_all(IMAGE, html);
    let ghost found = found_views(ms@);
    let mut out: Vec<String> = Vec::new();
    assert(views(out@) =~= Seq::empty());
    let mut i: usize = 0;
    while i < ms.len()
        invariant
            t@ == html@,
            found == found_views(ms@),
            well_placed(t@.len(), found),
            i <= ms.len(),
            views(out@) == sources_among(t@, found, i as int),
        decreases ms.len() - i,
    {
        assert(fits(t@.len(), found[i as int]));
        let ghost before = views(out@);
        if let Some(src) = find_either_group(&t, &ms[i], 1, 2) {
            let ghost next = src@;
            out.push(src);
            assert(views(out@) =~= before.push(next));
        }
        i += 1;
    }
    out
}

/// Whether a source is an asset that has been downloaded: its path starts
/// with the asset directory, plain or encoded.
pub open spec fn is_local_asset(src: Seq<char>, prefix: Seq<char>) -> bool {
    ||| has_prefix(src, prefix + "/"@)
    ||| has_prefix(src, percent_encoded(prefix, SEGMENT_MARKS@) + "%2F"@)
}

/// Whether a source is an asset that has been downloaded.
pub fn is_local_markdown_asset(src: &str, markdown_image_prefix: &str) -> (r: bool)
    ensures
        r == is_local_asset(src@, markdown_image_prefix@),
{
    let plain = joined(markdown_image_prefix, "/");
    let encoded = joined(&percent_encode(markdown_image_prefix, SEGMENT_MARKS), "%2F");
    starts_with(src, &plain) || starts_with(src, &encoded)
}

/// Whether an image has to be downloaded: it is not there yet, is not made by
/// the PlantUML service, and is no asset.
pub open spec fn is_wanted(
    src: Seq<char>,
    local: Map<Seq<char>, Seq<char>>,
    prefix: Seq<char>,
) -> bool {
    &&& !local.contains_key(src)
    &&& first_match(PLANTUML_SERVICE@, src) is None
    &&& !is_local_asset(src, prefix)
}

/// What to download for the image with number `index`, given the images that
/// are there; none where nothing is to be done.
pub fn plan_image(
    src: &str,
    index: usize,
    src_to_local: &TextMap,
    opts: &DownloadImagesOptions<'_>,
) -> (r: Option<Download>)
    requires
        index < usize::MAX,
    ensures
        match r {
            Some(d) => is_wanted(src@, src_to_local@, opts.markdown_image_prefix@) && d.url@
                == resolved(src@, opts.base_url@) && d.fallback_base_name@ == "image_"@ + decimal(
                (index + 1) as nat,
            ),
            None => !is_wanted(src@, src_to_local@, opts.markdown_image_prefix@),
        },
{
    if src_to_local.get(src).is_some() || is_match(PLANTUML_SERVICE, src)
        || is_local_markdown_asset(src, opts.markdown_image_prefix) {
        return None;
    }
    let mut fallback_base_name: String = "image_".to_owned();
    push_decimal(&mut fallback_base_name, index + 1);
    Some(Download { url: resolve_url(src, opts.base_url), fallback_base_name })
}

/// An image tag up to the end of its source, with the source replaced where
/// the image has been downloaded and its quotation marks agree.
pub open spec fn localized(
    original: Seq<char>,
    before: Seq<char>,
    open: Seq<char>,
    src: Seq<char>,
    close: Seq<char>,
    local: Map<Seq<char>, Seq<char>>,
) -> Seq<char> {
    if open == close && local.contains_key(src) {
        before + open + local[src] + close
    } else {
        original
    }
}

/// An image tag up to the end of its source, with the source replaced where
/// the image has been downloaded and its quotation marks agree.
pub fn localize_image(
    original: String,
    before: &str,
    open: &str,
    src: &str,
    close: &str,
    src_to_local: &TextMap,
) -> (r: String)
    ensures
        r@ == localized(original@, before@, open@, src@, close@, src_to_local@),
{
    if !same_text(open, close) {
        return original;
    }
    match src_to_local.get(src) {
        Some(local) => {
            let mut out: String = before.to_owned();
            out.append(open);
            out.append(local);
            out.append(close);
            out
        },
        None => original,
    }
}

/// What replaces an image tag up to the end of its source.
pub open spec fn image_rewriting(local: Map<Seq<char>, Seq<char>>) -> spec_fn(
    Seq<char>,
    Seq<Option<Span>>,
) -> Seq<char> {
    |t: Seq<char>, m: Seq<Option<Span>>|
        localized(
            whole_text(t, m),
            group_text(t, m, 1),
            group_text(t, m, 2),
            group_text(t, m, 3),
            group_text(t, m, 4),
            local,
        )
}

/// Points the images of a page to the files that have been downloaded.
pub fn rewrite_image_sources(html: &str, src_to_local: &TextMap) -> (r: String)
    ensures
        r@ == rewritten(IMAGE_SOURCE@, html@, image_rewriting(src_to_local@)),
{
    let f = |t: &[char], m: &Found| -> (r: String)
        requires
            fits(t@.len(), m@),
        ensures
            r@ == image_rewriting(src_to_local@)(t@, m@),
        {
            localize_image(
                m.whole(t),
                &m.group_text(t, 1),
                &m.group_text(t, 2),
                &m.group_text(t, 3),
                &m.group_text(t, 4),
                src_to_local,
            )
        };
    rewrite(IMAGE_SOURCE, html, f, Ghost(image_rewriting(src_to_local@)))
}

/// Where nothing has been downloaded, the images of a page stay as they are.
pub proof fn law_images_stay_without_downloads(t: Seq<char>)
    requires
        well_placed(t.len(), all_matches(IMAGE_SOURCE@, t)),
    ensures
        rewritten(IMAGE_SOURCE@, t, image_rewriting(Map::empty())) == t,
{
    law_rewriting_by_itself(IMAGE_SOURCE@, t, image_rewriting(Map::empty()));
}

// ── Finding a page ─────────────────────────────────────────────────

/// The pattern of a page number in a path.
pub const SPACE_PAGE: &'static str = r"/spaces/[^/]+/pages/(\d+)";

/// The pattern of a space and a title in a path.
pub const DISPLAY_PAGE: &'static str = r"/display/([^/]+)/(.+)";

/// The address of the search for a page by space and title.
pub open spec fn search_address(
    base_url: Seq<char>,
    space_key: Seq<char>,
    title: Seq<char>,
) -> Seq<char> {
    base_url + "/rest/api/content?spaceKey="@ + percent_encoded(space_key, SEGMENT_MARKS@)
        + "&title="@ + percent_encoded(title, SEGMENT_MARKS@) + "&type=page"@
}

/// The address of the search for a page by space and title.
pub fn search_url(base_url: &str, space_key: &str, title: &str) -> (r: String)
    ensures
        r@ == search_address(base_url@, space_key@, title@),
{
    let mut out: String = base_url.to_owned();
    out.append("/rest/api/content?spaceKey=");
    out.append(&encode_query_value(space_key));
    out.append("&title=");
    out.append(&encode_query_value(title));
    out.append("&type=page");
    out
}

/// The identifier of the first page that a search found.
pub fn read_search(data: &JsonValue, space_key: &str, title: &str) -> (r: Result<
    String,
    ConfluenceError,
>)
    ensures
        ({
            let results = results_of(data@);
            if results.len() == 0 {
                r matches Err(ConfluenceError::PageNotFound { space, title: t }) && space@
                    == space_key@ && t@ == title@
            } else {
                match results[0].get_text("id"@) {
                    Some(id) => r matches Ok(found) && found@ == id,
                    None => r matches Err(ConfluenceError::BadPageId),
                }
            }
        }),
{
    if let Some(v) = data.get("results") {
        if let Some(items) = v.as_items() {
            let ghost results = results_of(data@);
            assert(results == Seq::new(items@.len(), |i: int| items@[i]@));
            if items.len() > 0 {
                assert(results[0] == items@[0]@);
                return match items[0].get_text("id") {
                    Some(id) => Ok(id.clone()),
                    None => Err(ConfluenceError::BadPageId),
                };
            }
        }
    }
    Err(ConfluenceError::PageNotFound { space: space_key.to_owned(), title: title.to_owned() })
}

/// How a page is found: by its identifier, or by a search.
#[derive(Debug)]
pub enum PageLookup {
    Id(String),
    Search { space: String, title: String },
}

/// How a page is found.
pub enum LookupModel {
    Id(Seq<char>),
    Search(Seq<char>, Seq<char>),
}

impl View for PageLookup {
    type V = LookupModel;

    open spec fn view(&self) -> LookupModel {
        match self {
            PageLookup::Id(id) => LookupModel::Id(id@),
            PageLookup::Search { space, title } => LookupModel::Search(space@, title@),
        }
    }
}

/// The first value of a query with a name, from pair `i` on.
pub open spec fn query_value(query: Seq<(Seq<char>, Seq<char>)>, name: Seq<char>, i: int) -> Option<
    Seq<char>,
>
    decreases query.len() - i,
{
    if i < 0 || i >= query.len() {
        None
    } else if query[i].0 == name {
        Some(query[i].1)
    } else {
        query_value(query, name, i + 1)
    }
}

/// The last value with a name among the first `n` pairs of a query.
pub open spec fn last_query_value(query: Seq<(Seq<char>, Seq<char>)>, name: Seq<char>, n: int) -> Option<
    Seq<char>,
>
    decreases n,
{
    if n <= 0 {
        None
    } else if query[n - 1].0 == name {
        Some(query[n - 1].1)
    } else {
        last_query_value(query, name, n - 1)
    }
}

/// How a page is found, given what its URL shows: by an identifier in its
/// query, by the number in a `/spaces/…/pages/…` path, by space and title in
/// its query, or by those in a `/display/…/…` path, in this order.
pub open spec fn chosen_lookup(
    page_id: Option<Seq<char>>,
    page_number: Option<Seq<char>>,
    space: Option<Seq<char>>,
    title: Option<Seq<char>>,
    display: Option<(Seq<char>, Seq<char>)>,
) -> Option<LookupModel> {
    match page_id {
        Some(id) => Some(LookupModel::Id(id)),
        None => match page_number {
            Some(id) => Some(LookupModel::Id(id)),
            None => match (space, title) {
                (Some(s), Some(t)) => Some(LookupModel::Search(s, t)),
                _ => match display {
                    Some((s, t)) => Some(LookupModel::Search(s, replaced(t, "+"@, " "@))),
                    None => None,
                },
            },
        },
    }
}

/// How a page is found, given what its URL shows.
pub fn choose_lookup(
    page_id: Option<String>,
    page_number: Option<String>,
    space: Option<String>,
    title: Option<String>,
    display: Option<(String, String)>,
) -> (r: Option<PageLookup>)
    ensures
        ({
            let shown = match display {
                Some((s, t)) => Some((s@, t@)),
                None => None,
            };
            let lookup = chosen_lookup(
                opt_view(page_id),
                opt_view(page_number),
                opt_view(space),
                opt_view(title),
                shown,
            );
            match r {
                Some(l) => lookup == Some(l@),
                None => lookup is None,
            }
        }),
{
    if let Some(id) = page_id {
        return Some(PageLookup::Id(id));
    }
    if let Some(id) = page_number {
        return Some(PageLookup::Id(id));
    }
    if let (Some(space), Some(title)) = (space, title) {
        return Some(PageLookup::Search { space, title });
    }
    match display {
        Some((space, title)) => {
            proof {
                reveal_strlit("+");
            }
            Some(PageLookup::Search { space, title: replace(&title, "+", " ") })
        },
        None => None,
    }
}

/// The space and the title in a `/display/…/…` path, decoded.
pub open spec fn display_page(path: Seq<char>) -> Option<(Seq<char>, Seq<char>)> {
    match first_match(DISPLAY_PAGE@, path) {
        Some(m) => Some(
            (percent_decoded(group_text(path, m, 1)), percent_decoded(group_text(path, m, 2))),
        ),
        None => None,
    }
}

/// How the page of a URL is found.
pub open spec fn lookup_of(url: UrlModel) -> Option<LookupModel> {
    let n = url.query.len() as int;
    chosen_lookup(
        query_value(url.query, "pageId"@, 0),
        first_group(SPACE_PAGE@, url.path, 1),
        last_query_value(url.query, "spaceKey"@, n),
        last_query_value(url.query, "title"@, n),
        display_page(url.path),
    )
}

fn find_query_value(url: &UrlParts, name: &str) -> (r: Option<String>)
    ensures
        opt_view(r) == query_value(url@.query, name@, 0),
{
    let ghost all = url@.query;
    let mut i: usize = 0;
    while i < url.query.len()
        invariant
            all == url@.query,
            i <= url.query.len(),
            query_value(all, name@, 0) == query_value(all, name@, i as int),
        decreases url.query.len() - i,
    {
        assert(all[i as int] == (url.query@[i as int].name@, url.query@[i as int].value@));
        if same_text(&url.query[i].name, name) {
            return Some(url.query[i].value.clone());
        }
        i += 1;
    }
    None
}

fn find_last_query_value(url: &UrlParts, name: &str) -> (r: Option<String>)
    ensures
        opt_view(r) == last_query_value(url@.query, name@, url@.query.len() as int),
{
    let ghost all = url@.query;
    let mut n: usize = url.query.len();
    while n > 0
        invariant
            all == url@.query,
            n <= url.query.len(),
            last_query_value(all, name@, all.len() as int) == last_query_value(
                all,
                name@,
                n as int,
            ),
        decreases n,
    {
        assert(all[n - 1] == (url.query@[n - 1].name@, url.query@[n - 1].value@));
        if same_text(&url.query[n - 1].name, name) {
            return Some(url.query[n - 1].value.clone());
        }
        n -= 1;
    }
    None
}

/// A segment of a path, decoded.
pub fn decode_path_segment(s: &str) -> (r: String)
    ensures
        r@ == percent_decoded(s@),
{
    percent_decode(s)
}

/// How the page of a URL is found.
pub fn locate_page(url: &UrlParts) -> (r: Option<PageLookup>)
    ensures
        match r {
            Some(l) => lookup_of(url@) == Some(l@),
            None => lookup_of(url@) is None,
        },
{
    let path = chars_of(&url.path);
    let display = match find_first(DISPLAY_PAGE, &url.path) {
        Some(m) => Some(
            (
                decode_path_segment(&m.group_text(&path, 1)),
                decode_path_segment(&m.group_text(&path, 2)),
            ),
        ),
        None => None,
    };
    choose_lookup(
        find_query_value(url, "pageId"),
        first_group_of(SPACE_PAGE, &url.path, 1),
        find_last_query_value(url, "spaceKey"),
        find_last_query_value(url, "title"),
        display,
    )
}

/// How the page at an address is found.
pub fn resolve_page_lookup(page_url: &str) -> (r: Result<PageLookup, ConfluenceError>)
    ensures
        match url_read(page_url@) {
            Some(url) => match lookup_of(url) {
                Some(l) => r matches Ok(found) && found@ == l,
                None => r matches Err(ConfluenceError::NoPageId { url: u }) && u@ == page_url@,
            },
            None => r matches Err(ConfluenceError::BadUrl),
        },
{
    match parse_url(page_url) {
        Some(url) => match locate_page(&url) {
            Some(l) => Ok(l),
            None => Err(ConfluenceError::NoPageId { url: page_url.to_owned() }),
        },
        None => Err(ConfluenceError::BadUrl),
    }
}

} // verus!
