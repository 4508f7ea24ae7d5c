//! Draw.io diagrams of a page: where they come from, and how the page shows
//! them.

use vstd::hash_map::StringHashMap;
use vstd::prelude::*;
use vstd::string::StringExecFns;

use crate::confluence::{
    attachment_download_url, copy_text, download_url, either_group, find_either_group, join_texts,
    listed, titled, AssetPlace, Attachment, AttachmentModel,
};
use crate::lookup::{AnswerMap, NameSet};
use crate::macros::{
    all_texts, extract_macro_blocks, extract_macro_param, macro_param, macro_pattern, matched_texts,
};
pub use crate::mxfile::filter_mxfile_to_aspect_hash;
use crate::mxfile::filtered;
use crate::names::{asset_path, is_free_name, to_markdown_asset_path, unique_file_name};
use crate::pattern::{
    find_first, first_match, fits, group_text, rewrite_by_number, rewritten_by_number, whole_text,
    Found, Span,
};
use crate::percent::{percent_decode, percent_decoded};
pub use crate::png::embed_drawio_xml_in_png;
use crate::png::{embedded, is_png};
use crate::text::{
    ascii_lower, chars_of, ends_with, has_suffix, joined, lower, opt_view, or_empty, part,
    same_text, split_words, str_view, views, words,
};
use crate::utils::{escape_html, escaped, sanitize_file_name, sanitized};
use crate::web::{parse_url, resolve_url, resolved, url_read, UrlModel, UrlParts};

pub use crate::mxfile::sha1_hex;
pub use crate::png::EmbedError;

verus! {

// ── Diagrams in storage format ─────────────────────────────────────

/// A diagram that a page refers to.
#[derive(Debug, Clone)]
pub struct DrawioDiagramRef {
    pub diagram_name: String,
    pub aspect_hash: Option<String>,
}

/// What a reference to a diagram is.
pub struct DiagramRefModel {
    pub diagram_name: Seq<char>,
    pub aspect_hash: Option<Seq<char>>,
}

impl View for DrawioDiagramRef {
    type V = DiagramRefModel;

    open spec fn view(&self) -> DiagramRefModel {
        DiagramRefModel {
            diagram_name: self.diagram_name@,
            aspect_hash: opt_view(self.aspect_hash),
        }
    }
}

/// An optional text, none where it is empty.
pub open spec fn unless_empty(o: Option<Seq<char>>) -> Option<Seq<char>> {
    match o {
        Some(s) => if s.len() == 0 {
            None
        } else {
            Some(s)
        },
        None => None,
    }
}

/// The diagrams that the first `n` macro blocks refer to. A block without a
/// diagram name is passed over.
pub open spec fn refs_among(blocks: Seq<Seq<char>>, n: int) -> Seq<DiagramRefModel>
    decreases n,
{
    if n <= 0 {
        Seq::empty()
    } else {
        match macro_param(blocks[n - 1], "diagramName"@) {
            Some(diagram_name) => refs_among(blocks, n - 1).push(
                DiagramRefModel {
                    diagram_name,
                    aspect_hash: unless_empty(macro_param(blocks[n - 1], "aspectHash"@)),
                },
            ),
            None => refs_among(blocks, n - 1),
        }
    }
}

/// The diagrams that storage HTML refers to.
pub open spec fn page_refs(storage: Option<Seq<char>>) -> Seq<DiagramRefModel> {
    let blocks = all_texts(macro_pattern("drawio"@), or_empty(storage));
    refs_among(blocks, blocks.len() as int)
}

/// What a list of references is.
pub open spec fn ref_views(v: Seq<DrawioDiagramRef>) -> Seq<DiagramRefModel> {
    Seq::new(v.len(), |i: int| v[i]@)
}

/// The diagrams that storage HTML refers to.
pub fn extract_drawio_diagrams(storage_html: Option<&str>) -> (r: Vec<DrawioDiagramRef>)
    ensures
        ref_views(r@) == page_refs(str_view(storage_html)),
{
    let html = match storage_html {
        Some(h) => h,
        None => "",
    };
    proof {
        reveal_strlit("");
        assert(html@ =~= or_empty(str_view(storage_html)));
    }
    let blocks = extract_macro_blocks(html, "drawio");
    let ghost all = views(blocks@);
    let mut refs: Vec<DrawioDiagramRef> = Vec::new();
    assert(ref_views(refs@) =~= Seq::empty());
    let mut i: usize = 0;
    while i < blocks.len()
        invariant
            all == views(blocks@),
            i <= blocks.len(),
            ref_views(refs@) == refs_among(all, i as int),
        decreases blocks.len() - i,
    {
        assert(all[i as int] == blocks@[i as int]@);
        let ghost before = ref_views(refs@);
        if let Some(diagram_name) = extract_macro_param(&blocks[i], "diagramName") {
            let aspect_hash = match extract_macro_param(&blocks[i], "aspectHash") {
                Some(h) => if chars_of(&h).len() == 0 {
                    None
                } else {
                    Some(h)
                },
                None => None,
            };
            let found = DrawioDiagramRef { diagram_name, aspect_hash };
            let ghost model = found@;
            refs.push(found);
            assert(ref_views(refs@) =~= before.push(model));
        }
        i += 1;
    }
    refs
}

/// The names of the diagrams that storage HTML refers to.
pub fn extract_drawio_diagram_names(storage_html: Option<&str>) -> (r: Vec<String>)
    ensures
        ({
            let refs = page_refs(str_view(storage_html));
            views(r@) == Seq::new(refs.len(), |i: int| refs[i].diagram_name)
        }),
{
    let refs = extract_drawio_diagrams(storage_html);
    let ghost models = ref_views(refs@);
    let mut names: Vec<String> = Vec::new();
    let mut i: usize = 0;
    while i < refs.len()
        invariant
            models == ref_views(refs@),
            i <= refs.len(),
            names.len() == i,
            forall|k: int| 0 <= k < i ==> (#[trigger] names[k])@ == models[k].diagram_name,
        decreases refs.len() - i,
    {
        assert(models[i as int] == refs@[i as int]@);
        names.push(refs[i].diagram_name.clone());
        i += 1;
    }
    assert(views(names@) =~= Seq::new(models.len(), |i: int| models[i].diagram_name));
    names
}

// ── Rewriting a page ───────────────────────────────────────────────

/// The pattern of a script that draws a diagram.
pub const DRAWIO_SCRIPT: &'static str =
    r#"(?is)<span\b[^>]*id="drawio-macro-content-[^"]+"[^>]*></span>\s*<script\b.*?</script>"#;

/// The pattern of a rendered diagram: what stands before its source, the opening
/// mark, the source, the closing mark, what stands behind.
pub const DRAWIO_IMAGE: &'static str =
    r#"(?is)(<img\b[^>]*\bclass="drawio-diagram-image"[^>]*\bsrc=)(["'])([^"']*)(["'])([^>]*>)"#;

/// The image that stands for a diagram.
pub open spec fn diagram_image(path: Seq<char>) -> Seq<char> {
    "<p><img src=\""@ + path + "\" alt=\"draw.io diagram\" /></p>"@
}

/// What replaces a script block: the image of the same number, and nothing
/// where there are fewer images.
pub open spec fn script_rewriting(paths: Seq<Seq<char>>) -> spec_fn(
    int,
    Seq<char>,
    Seq<Option<Span>>,
) -> Seq<char> {
    |n: int, t: Seq<char>, m: Seq<Option<Span>>|
        if n < paths.len() {
            diagram_image(paths[n])
        } else {
            Seq::empty()
        }
}

/// A page with its diagram scripts replaced by images.
pub open spec fn scripts_replaced(html: Seq<char>, paths: Seq<Seq<char>>) -> Seq<char> {
    if paths.len() == 0 {
        html
    } else {
        rewritten_by_number(DRAWIO_SCRIPT@, html, script_rewriting(paths))
    }
}

/// Replaces the scripts that draw diagrams by images, in order. A script
/// beyond the last image goes.
pub fn replace_drawio_script_blocks_with_imgs(html: Option<&str>, local_image_paths: &[String]) -> (r:
    String)
    ensures
        r@ == scripts_replaced(or_empty(str_view(html)), views(local_image_paths@)),
{
    let html_text = match html {
        Some(h) => h,
        None => "",
    };
    proof {
        reveal_strlit("");
        assert(html_text@ =~= or_empty(str_view(html)));
    }
    if local_image_paths.len() == 0 {
        return html_text.to_owned();
    }
    let f = |n: usize, t: &[char], m: &Found| -> (r: String)
        ensures
            r@ == script_rewriting(views(local_image_paths@))(n as int, t@, m@),
        {
            if n < local_image_paths.len() {
                let mut out: String = "<p><img src=\"".to_owned();
                out.append(&local_image_paths[n]);
                out.append("\" alt=\"draw.io diagram\" /></p>");
                out
            } else {
                String::new()
            }
        };
    rewrite_by_number(
        DRAWIO_SCRIPT,
        html_text,
        f,
        Ghost(script_rewriting(views(local_image_paths@))),
    )
}

/// What replaces a rendered diagram: the same tag with the path of the same
/// number as source. It stays as it is where there are fewer paths or its
/// quotation marks differ.
pub open spec fn image_rewriting(paths: Seq<Seq<char>>) -> spec_fn(
    int,
    Seq<char>,
    Seq<Option<Span>>,
) -> Seq<char> {
    |n: int, t: Seq<char>, m: Seq<Option<Span>>|
        if n < paths.len() && group_text(t, m, 2) == group_text(t, m, 4) {
            group_text(t, m, 1) + group_text(t, m, 2) + paths[n] + group_text(t, m, 4) + group_text(
                t,
                m,
                5,
            )
        } else {
            whole_text(t, m)
        }
}

/// A page with its rendered diagrams pointed to local images.
pub open spec fn images_replaced(html: Seq<char>, paths: Seq<Seq<char>>) -> Seq<char> {
    if html.len() == 0 || paths.len() == 0 {
        html
    } else {
        rewritten_by_number(DRAWIO_IMAGE@, html, image_rewriting(paths))
    }
}

/// Points rendered diagrams to local images, in order.
pub fn replace_drawio_img_srcs(html: &str, local_image_paths: &[String]) -> (r: String)
    ensures
        r@ == images_replaced(html@, views(local_image_paths@)),
{
    if chars_of(html).len() == 0 || local_image_paths.len() == 0 {
        return html.to_owned();
    }
    let f = |n: usize, t: &[char], m: &Found| -> (r: String)
        requires
            fits(t@.len(), m@),
        ensures
            r@ == image_rewriting(views(local_image_paths@))(n as int, t@, m@),
        {
            let open = m.group_text(t, 2);
            let close = m.group_text(t, 4);
            if n < local_image_paths.len() && same_text(&open, &close) {
                let mut out: String = m.group_text(t, 1);
                out.append(&open);
                out.append(&local_image_paths[n]);
                out.append(&close);
                out.append(&m.group_text(t, 5));
                out
            } else {
                m.whole(t)
            }
        };
    rewrite_by_number(DRAWIO_IMAGE, html, f, Ghost(image_rewriting(views(local_image_paths@))))
}

/// A diagram shown at the end of a page.
#[derive(Debug)]
pub struct FallbackDiagram {
    pub local_path: String,
    pub label: String,
    pub alt: String,
}

/// A diagram shown at the end of a page: its label as caption, and an image
/// whose alternative text is its own, else the label, else `diagram`.
pub open spec fn fallback_block(d: FallbackDiagram) -> Seq<char> {
    let caption = if d.label@.len() == 0 {
        Seq::empty()
    } else {
        "<p>"@ + escaped(d.label@) + "</p>"@
    };
    let alt = if d.alt@.len() > 0 {
        d.alt@
    } else if d.label@.len() > 0 {
        d.label@
    } else {
        "diagram"@
    };
    "<div class=\"confluence2md-fallback-diagram\">\n"@ + caption + "\n<p><img src=\""@
        + d.local_path@ + "\" alt=\""@ + escaped(alt) + "\" /></p>\n</div>"@
}

fn render_fallback(d: &FallbackDiagram) -> (r: String)
    ensures
        r@ == fallback_block(*d),
{
    let has_label = chars_of(&d.label).len() > 0;
    let mut caption: String = String::new();
    if has_label {
        caption = "<p>".to_owned();
        caption.append(&escape_html(&d.label));
        caption.append("</p>");
    }
    let alt = if chars_of(&d.alt).len() > 0 {
        escape_html(&d.alt)
    } else if has_label {
        escape_html(&d.label)
    } else {
        escape_html("diagram")
    };
    let mut out: String = "<div class=\"confluence2md-fallback-diagram\">\n".to_owned();
    out.append(&caption);
    out.append("\n<p><img src=\"");
    out.append(&d.local_path);
    out.append("\" alt=\"");
    out.append(&alt);
    out.append("\" /></p>\n</div>");
    out
}

/// A page with a section of diagrams at its end; none where there are none.
pub open spec fn with_fallbacks(html: Seq<char>, diagrams: Seq<FallbackDiagram>) -> Seq<char> {
    if diagrams.len() == 0 {
        html
    } else {
        html + "\n<hr />\n<h2>Embedded diagrams</h2>\n"@ + listed(
            Seq::new(diagrams.len(), |i: int| fallback_block(diagrams[i])),
            "\n"@,
            diagrams.len() as int,
        ) + "\n"@
    }
}

/// Puts a section of diagrams at the end of a page.
pub fn append_fallback_diagrams_section(html: &str, diagrams: &[FallbackDiagram]) -> (r: String)
    ensures
        r@ == with_fallbacks(html@, diagrams@),
{
    if diagrams.len() == 0 {
        return html.to_owned();
    }
    let mut blocks: Vec<String> = Vec::new();
    let mut i: usize = 0;
    while i < diagrams.len()
        invariant
            i <= diagrams.len(),
            blocks.len() == i,
            forall|k: int| 0 <= k < i ==> (#[trigger] blocks[k])@ == fallback_block(diagrams@[k]),
        decreases diagrams.len() - i,
    {
        blocks.push(render_fallback(&diagrams[i]));
        i += 1;
    }
    assert(views(blocks@) =~= Seq::new(diagrams@.len(), |i: int| fallback_block(diagrams@[i])));
    let mut out: String = html.to_owned();
    out.append("\n<hr />\n<h2>Embedded diagrams</h2>\n");
    out.append(&join_texts(&blocks, "\n"));
    out.append("\n");
    out
}

// ── Where diagrams come from ───────────────────────────────────────

/// The files of a diagram: its rendered image, and its source where it is
/// known.
#[derive(Debug, Clone)]
pub struct DrawioAssetSource {
    pub page_id: String,
    pub diagram_name: String,
    pub aspect_hash: Option<String>,
    pub png_title: String,
    pub png_url: String,
    pub xml_url: Option<String>,
    pub xml_file_name: Option<String>,
    pub output_base_name: String,
}

/// What the files of a diagram are.
pub struct SourceModel {
    pub page_id: Seq<char>,
    pub diagram_name: Seq<char>,
    pub aspect_hash: Option<Seq<char>>,
    pub png_title: Seq<char>,
    pub png_url: Seq<char>,
    pub xml_url: Option<Seq<char>>,
    pub xml_file_name: Option<Seq<char>>,
    pub output_base_name: Seq<char>,
}

impl View for DrawioAssetSource {
    type V = SourceModel;

    open spec fn view(&self) -> SourceModel {
        SourceModel {
            page_id: self.page_id@,
            diagram_name: self.diagram_name@,
            aspect_hash: opt_view(self.aspect_hash),
            png_title: self.png_title@,
            png_url: self.png_url@,
            xml_url: opt_view(self.xml_url),
            xml_file_name: opt_view(self.xml_file_name),
            output_base_name: self.output_base_name@,
        }
    }
}

/// What a list of sources is.
pub open spec fn source_views(v: Seq<DrawioAssetSource>) -> Seq<SourceModel> {
    Seq::new(v.len(), |i: int| v[i]@)
}

impl DrawioAssetSource {
    /// A copy of the source.
    pub fn copy(&self) -> (r: DrawioAssetSource)
        ensures
            r@ == self@,
    {
        DrawioAssetSource {
            page_id: self.page_id.clone(),
            diagram_name: self.diagram_name.clone(),
            aspect_hash: copy_text(&self.aspect_hash),
            png_title: self.png_title.clone(),
            png_url: self.png_url.clone(),
            xml_url: copy_text(&self.xml_url),
            xml_file_name: copy_text(&self.xml_file_name),
            output_base_name: self.output_base_name.clone(),
        }
    }
}

/// The pattern of an image title with a hash: the name and the hash.
pub const HASHED_PNG: &'static str = r#"(?i)^(.+)-([0-9a-f]{40})\.png$"#;

/// `t` without the text `p` at its end, however often it stands there.
pub open spec fn without_suffix(t: Seq<char>, p: Seq<char>) -> Seq<char>
    decreases t.len(),
{
    if p.len() > 0 && has_suffix(t, p) {
        without_suffix(t.take(t.len() - p.len()), p)
    } else {
        t
    }
}

fn trim_suffix(text: &str, p: &str) -> (r: String)
    requires
        p@.len() > 0,
    ensures
        r@ == without_suffix(text@, p@),
{
    let mut out: String = text.to_owned();
    let n: usize = chars_of(p).len();
    while ends_with(&out, p)
        invariant
            n == p@.len(),
            n > 0,
            without_suffix(text@, p@) == without_suffix(out@, p@),
        decreases out@.len(),
    {
        let t = chars_of(&out);
        let shorter = part(&t, 0, t.len() - n);
        assert(shorter@ =~= t@.take(t@.len() - n));
        out = shorter;
    }
    out
}

/// What the title of a diagram's image tells: the name of the diagram, its
/// hash, the title of its source, and the name of the file to write.
pub struct TitleModel {
    pub name: Seq<char>,
    pub hash: Option<Seq<char>>,
    pub xml_title: Seq<char>,
    pub output: Seq<char>,
}

/// What the title of a diagram's image tells, given the name and the hash
/// that a hashed title consists of.
pub open spec fn title_parts(title: Seq<char>, hashed: Option<(Seq<char>, Seq<char>)>) -> TitleModel {
    if has_suffix(title, ".drawio.png"@) {
        let name = title.take(title.len() - 11);
        TitleModel {
            name,
            hash: None,
            xml_title: name + ".drawio"@,
            output: name + ".drawio.png"@,
        }
    } else {
        match hashed {
            Some((name, hash)) => TitleModel {
                name,
                hash: Some(hash),
                xml_title: name,
                output: name + "-"@ + hash + ".drawio.png"@,
            },
            None => {
                let name = without_suffix(title, ".png"@);
                TitleModel { name, hash: None, xml_title: name, output: name + ".drawio.png"@ }
            },
        }
    }
}

/// What the title of a diagram's image tells.
#[derive(Debug)]
pub struct TitleParts {
    pub name: String,
    pub hash: Option<String>,
    pub xml_title: String,
    pub output: String,
}

impl View for TitleParts {
    type V = TitleModel;

    open spec fn view(&self) -> TitleModel {
        TitleModel {
            name: self.name@,
            hash: opt_view(self.hash),
            xml_title: self.xml_title@,
            output: self.output@,
        }
    }
}

/// What the title of a diagram's image tells, given the name and the hash
/// that a hashed title consists of.
pub fn read_title(title: &str, hashed: Option<(String, String)>) -> (r: TitleParts)
    ensures
        r@ == title_parts(
            title@,
            match hashed {
                Some((a, b)) => Some((a@, b@)),
                None => None,
            },
        ),
{
    proof {
        reveal_strlit(".drawio.png");
        reveal_strlit(".png");
    }
    if ends_with(title, ".drawio.png") {
        let t = chars_of(title);
        let name = part(&t, 0, t.len() - 11);
        assert(name@ =~= t@.take(t@.len() - 11));
        let xml_title = joined(&name, ".drawio");
        let output = joined(&name, ".drawio.png");
        return TitleParts { name, hash: None, xml_title, output };
    }
    match hashed {
        Some((name, hash)) => {
            let mut output: String = name.clone();
            output.append("-");
            output.append(&hash);
            output.append(".drawio.png");
            let xml_title = name.clone();
            TitleParts { name, hash: Some(hash), xml_title, output }
        },
        None => {
            let name = trim_suffix(title, ".png");
            let output = joined(&name, ".drawio.png");
            let xml_title = name.clone();
            TitleParts { name, hash: None, xml_title, output }
        },
    }
}

/// The name and the hash that a hashed title consists of.
pub open spec fn hashed_title(title: Seq<char>) -> Option<(Seq<char>, Seq<char>)> {
    match first_match(HASHED_PNG@, title) {
        Some(m) => Some((group_text(title, m, 1), group_text(title, m, 2))),
        None => None,
    }
}

fn split_hashed_title(title: &str) -> (r: Option<(String, String)>)
    ensures
        match r {
            Some((a, b)) => hashed_title(title@) == Some((a@, b@)),
            None => hashed_title(title@) is None,
        },
{
    match find_first(HASHED_PNG, title) {
        Some(m) => {
            let t = chars_of(title);
            Some((m.group_text(&t, 1), m.group_text(&t, 2)))
        },
        None => None,
    }
}

/// Where `download`, `attachments`, a page and a title stand in a row among
/// the segments of a path, from segment `i` on.
pub open spec fn download_place(segments: Seq<Seq<char>>, i: int) -> Option<int>
    decreases segments.len() - i,
{
    if i < 0 || i + 4 > segments.len() {
        None
    } else if segments[i] == "download"@ && segments[i + 1] == "attachments"@ {
        Some(i)
    } else {
        download_place(segments, i + 1)
    }
}

/// Where `download`, `attachments`, a page and a title stand in a row among
/// the segments of a path.
pub fn find_download_place(segments: &Vec<String>) -> (r: Option<usize>)
    ensures
        match r {
            Some(i) => download_place(views(segments@), 0) == Some(i as int) && i + 4
                <= segments.len(),
            None => download_place(views(segments@), 0) is None,
        },
{
    let ghost all = views(segments@);
    let mut i: usize = 0;
    while i < segments.len() && segments.len() - i >= 4
        invariant
            all == views(segments@),
            i <= segments.len(),
            download_place(all, 0) == download_place(all, i as int),
        decreases segments.len() - i,
    {
        assert(all[i as int] == segments@[i as int]@);
        assert(all[i + 1] == segments@[i + 1]@);
        if same_text(&segments[i], "download") && same_text(&segments[i + 1], "attachments") {
            return Some(i);
        }
        i += 1;
    }
    None
}

/// Percent-decoded texts.
pub open spec fn all_decoded(v: Seq<Seq<char>>) -> Seq<Seq<char>> {
    Seq::new(v.len(), |i: int| percent_decoded(v[i]))
}

/// The page and the title in the path of an attachment's address.
pub open spec fn attachment_address(url: UrlModel) -> Option<(Seq<char>, Seq<char>)> {
    match url.segments() {
        Some(segments) => match download_place(all_decoded(segments), 0) {
            Some(i) => Some((all_decoded(segments)[i + 2], all_decoded(segments)[i + 3])),
            None => None,
        },
        None => None,
    }
}

fn read_attachment_address(url: &UrlParts) -> (r: Option<(String, String)>)
    ensures
        match r {
            Some((a, b)) => attachment_address(url@) == Some((a@, b@)),
            None => attachment_address(url@) is None,
        },
{
    let segments = match url.segments() {
        Some(s) => s,
        None => {
            return None;
        },
    };
    let ghost all = views(segments@);
    let mut decoded: Vec<String> = Vec::new();
    let mut i: usize = 0;
    while i < segments.len()
        invariant
            all == views(segments@),
            i <= segments.len(),
            decoded.len() == i,
            forall|k: int| 0 <= k < i ==> (#[trigger] decoded[k])@ == percent_decoded(all[k]),
        decreases segments.len() - i,
    {
        assert(all[i as int] == segments@[i as int]@);
        decoded.push(percent_decode(&segments[i]));
        i += 1;
    }
    assert(views(decoded@) =~= all_decoded(all));
    match find_download_place(&decoded) {
        Some(k) => {
            assert(views(decoded@)[k + 2] == decoded@[k + 2]@);
            assert(views(decoded@)[k + 3] == decoded@[k + 3]@);
            Some((decoded[k + 2].clone(), decoded[k + 3].clone()))
        },
        None => None,
    }
}

/// An attachment of which the title is all that is known.
pub open spec fn bare_attachment(title: Seq<char>) -> AttachmentModel {
    AttachmentModel {
        id: Seq::empty(),
        title,
        media_type: None,
        download_path: None,
        webui_path: None,
    }
}

/// The source of a rendered diagram whose image is attached to a page under a
/// title, at an address.
pub open spec fn rendered_source(
    page_id: Seq<char>,
    png_title: Seq<char>,
    address: Seq<char>,
    base_url: Seq<char>,
) -> SourceModel {
    let parts = title_parts(png_title, hashed_title(png_title));
    SourceModel {
        page_id,
        diagram_name: parts.name,
        aspect_hash: parts.hash,
        png_title,
        png_url: address,
        xml_url: Some(download_url(base_url, page_id, bare_attachment(parts.xml_title))),
        xml_file_name: Some(parts.xml_title),
        output_base_name: parts.output,
    }
}

/// The source of a diagram that is rendered as an image with the given
/// source; none where that is no attached PNG file.
pub open spec fn source_of_src(src: Seq<char>, base_url: Seq<char>) -> Option<SourceModel> {
    let address = resolved(src, base_url);
    match url_read(address) {
        Some(url) => match attachment_address(url) {
            Some((page_id, title)) => if has_suffix(lower(title), ".png"@) {
                Some(rendered_source(page_id, title, address, base_url))
            } else {
                None
            },
            None => None,
        },
        None => None,
    }
}

/// The source of a diagram that is rendered as an image with the given
/// source.
pub fn source_from_rendered_drawio_src(src: &str, base_url: &str) -> (r: Option<DrawioAssetSource>)
    ensures
        match r {
            Some(s) => source_of_src(src@, base_url@) == Some(s@),
            None => source_of_src(src@, base_url@) is None,
        },
{
    let absolute = resolve_url(src, base_url);
    let url = match parse_url(&absolute) {
        Some(u) => u,
        None => {
            return None;
        },
    };
    let (page_id, png_title) = match read_attachment_address(&url) {
        Some(p) => p,
        None => {
            return None;
        },
    };
    if !ends_with(&ascii_lower(&png_title), ".png") {
        return None;
    }
    let parts = read_title(&png_title, split_hashed_title(&png_title));
    let xml_attachment = Attachment {
        id: String::new(),
        title: parts.xml_title.clone(),
        media_type: None,
        download_path: None,
        webui_path: None,
    };
    proof {
        assert(xml_attachment@ == bare_attachment(parts.xml_title@));
    }
    let xml_url = attachment_download_url(base_url, &page_id, &xml_attachment);
    Some(
        DrawioAssetSource {
            page_id,
            diagram_name: parts.name,
            aspect_hash: parts.hash,
            png_title,
            png_url: absolute,
            xml_url: Some(xml_url),
            xml_file_name: Some(parts.xml_title),
            output_base_name: parts.output,
        },
    )
}

/// The pattern of an image tag.
pub const IMAGE_TAG: &'static str = r#"(?is)<img\b[^>]*>"#;

/// The pattern of a class attribute.
pub const CLASS_ATTRIBUTE: &'static str = r#"(?is)\bclass\s*=\s*(?:"([^"]*)"|'([^']*)')"#;

/// The pattern of a source attribute.
pub const SRC_ATTRIBUTE: &'static str = r#"(?is)\bsrc\s*=\s*(?:"([^"]*)"|'([^']*)')"#;

/// The value of an attribute, in whichever quotation marks.
pub open spec fn quoted_value(pattern: Seq<char>, tag: Seq<char>) -> Option<Seq<char>> {
    match first_match(pattern, tag) {
        Some(m) => either_group(tag, m, 1, 2),
        None => None,
    }
}

fn find_quoted_value(pattern: &str, tag: &str) -> (r: Option<String>)
    ensures
        opt_view(r) == quoted_value(pattern@, tag@),
{
    match find_first(pattern, tag) {
        Some(m) => find_either_group(&chars_of(tag), &m, 1, 2),
        None => None,
    }
}

/// Whether a class list is that of a rendered diagram.
pub open spec fn names_diagram(class: Seq<char>) -> bool {
    exists|i: int|
        0 <= i < words(class).len() && lower(#[trigger] words(class)[i]) == "drawio-diagram-image"@
}

/// Whether a class list is that of a rendered diagram.
pub fn class_is_diagram(class: &str) -> (r: bool)
    ensures
        r == names_diagram(class@),
{
    let names = split_words(class);
    let ghost all = words(class@);
    let mut i: usize = 0;
    while i < names.len()
        invariant
            all == words(class@),
            views(names@) == all,
            i <= names.len(),
            forall|k: int| 0 <= k < i ==> lower(#[trigger] all[k]) != "drawio-diagram-image"@,
        decreases names.len() - i,
    {
        assert(all[i as int] == names@[i as int]@);
        if same_text(&ascii_lower(&names[i]), "drawio-diagram-image") {
            return true;
        }
        i += 1;
    }
    false
}

/// The source of the diagram that an image tag shows; none for another tag.
pub open spec fn source_of_tag(tag: Seq<char>, base_url: Seq<char>) -> Option<SourceModel> {
    if quoted_value(CLASS_ATTRIBUTE@, tag) matches Some(class) && names_diagram(class) {
        match quoted_value(SRC_ATTRIBUTE@, tag) {
            Some(src) => source_of_src(src, base_url),
            None => None,
        }
    } else {
        None
    }
}

fn source_from_tag(tag: &str, base_url: &str) -> (r: Option<DrawioAssetSource>)
    ensures
        match r {
            Some(s) => source_of_tag(tag@, base_url@) == Some(s@),
            None => source_of_tag(tag@, base_url@) is None,
        },
{
    let shows_diagram = match find_quoted_value(CLASS_ATTRIBUTE, tag) {
        Some(class) => class_is_diagram(&class),
        None => false,
    };
    if !shows_diagram {
        return None;
    }
    match find_quoted_value(SRC_ATTRIBUTE, tag) {
        Some(src) => source_from_rendered_drawio_src(&src, base_url),
        None => None,
    }
}

/// The sources of the diagrams that the first `n` image tags show.
pub open spec fn sources_of_tags(tags: Seq<Seq<char>>, base_url: Seq<char>, n: int) -> Seq<
    SourceModel,
>
    decreases n,
{
    if n <= 0 {
        Seq::empty()
    } else {
        match source_of_tag(tags[n - 1], base_url) {
            Some(s) => sources_of_tags(tags, base_url, n - 1).push(s),
            None => sources_of_tags(tags, base_url, n - 1),
        }
    }
}

/// The sources of the diagrams that a page shows.
pub open spec fn rendered_sources(html: Seq<char>, base_url: Seq<char>) -> Seq<SourceModel> {
    let tags = all_texts(IMAGE_TAG@, html);
    sources_of_tags(tags, base_url, tags.len() as int)
}

/// The sources of the diagrams that a page shows.
pub fn extract_rendered_drawio_sources(html: &str, base_url: &str) -> (r: Vec<DrawioAssetSource>)
    ensures
        source_views(r@) == rendered_sources(html@, base_url@),
{
    let tags = matched_texts(IMAGE_TAG, html);
    let ghost all = views(tags@);
    let mut out: Vec<DrawioAssetSource> = Vec::new();
    assert(source_views(out@) =~= Seq::empty());
    let mut i: usize = 0;
    while i < tags.len()
        invariant
            all == views(tags@),
            i <= tags.len(),
            source_views(out@) == sources_of_tags(all, base_url@, i as int),
        decreases tags.len() - i,
    {
        assert(all[i as int] == tags@[i as int]@);
        let ghost before = source_views(out@);
        if let Some(s) = source_from_tag(&tags[i], base_url) {
            let ghost model = s@;
            out.push(s);
            assert(source_views(out@) =~= before.push(model));
        }
        i += 1;
    }
    out
}

/// What it takes to find the diagrams of a page and save them.
pub struct ResolveDrawioOptions<'a> {
    pub page_id: &'a str,
    pub storage_html: Option<&'a str>,
    pub export_html: &'a str,
    pub attachments_by_title: &'a StringHashMap<Attachment>,
    pub base_url: &'a str,
    pub token: &'a str,
    pub assets_abs_dir: &'a str,
    pub markdown_image_prefix: &'a str,
    pub used_names: &'a mut NameSet,
}

/// The attachment that shows a diagram: the image with its hash, else the
/// plain image.
pub open spec fn diagram_attachment(
    d: DiagramRefModel,
    attachments: Map<Seq<char>, AttachmentModel>,
) -> Option<AttachmentModel> {
    let hashed = match d.aspect_hash {
        Some(h) => d.diagram_name + "-"@ + h + ".png"@,
        None => d.diagram_name + ".png"@,
    };
    if attachments.contains_key(hashed) {
        Some(attachments[hashed])
    } else if attachments.contains_key(d.diagram_name + ".png"@) {
        Some(attachments[d.diagram_name + ".png"@])
    } else {
        None
    }
}

/// The source of a diagram that a page refers to; none where no attachment
/// shows it.
pub open spec fn stored_source(
    d: DiagramRefModel,
    page_id: Seq<char>,
    base_url: Seq<char>,
    attachments: Map<Seq<char>, AttachmentModel>,
) -> Option<SourceModel> {
    match diagram_attachment(d, attachments) {
        Some(png) => Some(
            SourceModel {
                page_id,
                diagram_name: d.diagram_name,
                aspect_hash: d.aspect_hash,
                png_title: png.title,
                png_url: download_url(base_url, page_id, png),
                xml_url: if attachments.contains_key(d.diagram_name) {
                    Some(download_url(base_url, page_id, attachments[d.diagram_name]))
                } else {
                    None
                },
                xml_file_name: Some(d.diagram_name + ".drawio"@),
                output_base_name: match d.aspect_hash {
                    Some(h) => d.diagram_name + "-"@ + h + ".drawio.png"@,
                    None => d.diagram_name + ".drawio.png"@,
                },
            },
        ),
        None => None,
    }
}

fn hashed_name(d: &DrawioDiagramRef, suffix: &str) -> (r: String)
    ensures
        r@ == match d@.aspect_hash {
            Some(h) => d@.diagram_name + "-"@ + h + suffix@,
            None => d@.diagram_name + suffix@,
        },
{
    let mut out: String = d.diagram_name.clone();
    if let Some(h) = &d.aspect_hash {
        out.append("-");
        out.append(h);
    }
    out.append(suffix);
    out
}

/// The source of a diagram that a page refers to.
pub fn storage_drawio_source(dref: &DrawioDiagramRef, opts: &ResolveDrawioOptions<'_>) -> (r: Option<
    DrawioAssetSource,
>)
    ensures
        match r {
            Some(s) => stored_source(
                dref@,
                opts.page_id@,
                opts.base_url@,
                titled(opts.attachments_by_title@),
            ) == Some(s@),
            None => stored_source(
                dref@,
                opts.page_id@,
                opts.base_url@,
                titled(opts.attachments_by_title@),
            ) is None,
        },
{
    let hashed = hashed_name(dref, ".png");
    let plain = joined(&dref.diagram_name, ".png");
    let png = match opts.attachments_by_title.get(&hashed) {
        Some(a) => a,
        None => match opts.attachments_by_title.get(&plain) {
            Some(a) => a,
            None => {
                return None;
            },
        },
    };
    let xml_url = match opts.attachments_by_title.get(&dref.diagram_name) {
        Some(a) => Some(attachment_download_url(opts.base_url, opts.page_id, a)),
        None => None,
    };
    Some(
        DrawioAssetSource {
            page_id: opts.page_id.to_owned(),
            diagram_name: dref.diagram_name.clone(),
            aspect_hash: copy_text(&dref.aspect_hash),
            png_title: png.title.clone(),
            png_url: attachment_download_url(opts.base_url, opts.page_id, png),
            xml_url,
            xml_file_name: Some(joined(&dref.diagram_name, ".drawio")),
            output_base_name: hashed_name(dref, ".drawio.png"),
        },
    )
}

// ── The order of diagrams ──────────────────────────────────────────

/// Where a source in the final order comes from: the rendered sources or the
/// stored ones, with its number there.
pub enum Origin {
    Rendered(int),
    Stored(int),
}

/// Whether two sources show the same image.
pub open spec fn same_image(a: SourceModel, b: SourceModel) -> bool {
    a.page_id == b.page_id && a.png_title == b.png_title
}

/// The first stored source, from number `i` on, that shows the same image and
/// is not used yet.
pub open spec fn unused_match(
    r: SourceModel,
    stored: Seq<SourceModel>,
    used: Set<int>,
    i: int,
) -> Option<int>
    decreases stored.len() - i,
{
    if i < 0 || i >= stored.len() {
        None
    } else if !used.contains(i) && same_image(r, stored[i]) {
        Some(i)
    } else {
        unused_match(r, stored, used, i + 1)
    }
}

/// The order of the first `n` rendered sources: where a stored source shows
/// the same image, it stands in for the rendered one.
pub open spec fn matched_order(
    rendered: Seq<SourceModel>,
    stored: Seq<SourceModel>,
    n: int,
) -> (Seq<Origin>, Set<int>)
    decreases n,
{
    if n <= 0 {
        (Seq::empty(), Set::empty())
    } else {
        let (before, used) = matched_order(rendered, stored, n - 1);
        match unused_match(rendered[n - 1], stored, used, 0) {
            Some(k) => (before.push(Origin::Stored(k)), used.insert(k)),
            None => (before.push(Origin::Rendered(n - 1)), used),
        }
    }
}

/// The first `n` stored sources that are not used yet.
pub open spec fn unused_order(used: Set<int>, n: int) -> Seq<Origin>
    decreases n,
{
    if n <= 0 {
        Seq::empty()
    } else if used.contains(n - 1) {
        unused_order(used, n - 1)
    } else {
        unused_order(used, n - 1).push(Origin::Stored(n - 1))
    }
}

/// The order of all sources: the rendered ones, each replaced by its stored
/// counterpart where there is one, then the stored ones that are left.
pub open spec fn source_order(rendered: Seq<SourceModel>, stored: Seq<SourceModel>) -> Seq<Origin> {
    let (matched, used) = matched_order(rendered, stored, rendered.len() as int);
    matched + unused_order(used, stored.len() as int)
}

/// The source at a place.
pub open spec fn source_at(
    o: Origin,
    rendered: Seq<SourceModel>,
    stored: Seq<SourceModel>,
) -> SourceModel {
    match o {
        Origin::Rendered(i) => rendered[i],
        Origin::Stored(k) => stored[k],
    }
}

/// The sources in a given order.
pub open spec fn in_order(
    order: Seq<Origin>,
    rendered: Seq<SourceModel>,
    stored: Seq<SourceModel>,
) -> Seq<SourceModel> {
    Seq::new(order.len(), |i: int| source_at(order[i], rendered, stored))
}

/// The numbers at which a list of marks is set.
spec fn marked(v: Seq<bool>) -> Set<int> {
    Set::new(|k: int| 0 <= k < v.len() && v[k])
}

fn find_unused_match(r: &DrawioAssetSource, stored: &Vec<DrawioAssetSource>, used: &Vec<bool>) -> (k:
    Option<usize>)
    requires
        used.len() == stored.len(),
    ensures
        match k {
            Some(k) => unused_match(r@, source_views(stored@), marked(used@), 0) == Some(k as int)
                && k < stored.len(),
            None => unused_match(r@, source_views(stored@), marked(used@), 0) is None,
        },
{
    let ghost all = source_views(stored@);
    let mut i: usize = 0;
    while i < stored.len()
        invariant
            used.len() == stored.len(),
            all == source_views(stored@),
            i <= stored.len(),
            unused_match(r@, all, marked(used@), 0) == unused_match(
                r@,
                all,
                marked(used@),
                i as int,
            ),
        decreases stored.len() - i,
    {
        assert(all[i as int] == stored@[i as int]@);
        if !used[i] && same_text(&r.page_id, &stored[i].page_id) && same_text(
            &r.png_title,
            &stored[i].png_title,
        ) {
            return Some(i);
        }
        i += 1;
    }
    None
}

/// Orders the sources of a page: as the page shows them, stored ones in place
/// of rendered ones where they show the same image, then the stored ones that
/// the page does not show.
pub fn order_drawio_sources(
    rendered_sources: Vec<DrawioAssetSource>,
    storage_sources: Vec<DrawioAssetSource>,
) -> (r: Vec<DrawioAssetSource>)
    ensures
        ({
            let rendered = source_views(rendered_sources@);
            let stored = source_views(storage_sources@);
            source_views(r@) == in_order(source_order(rendered, stored), rendered, stored)
        }),
{
    let ghost rendered = source_views(rendered_sources@);
    let ghost stored = source_views(storage_sources@);
    let mut used: Vec<bool> = Vec::new();
    let mut i: usize = 0;
    while i < storage_sources.len()
        invariant
            i <= storage_sources.len(),
            used.len() == i,
            forall|k: int| 0 <= k < i ==> !(#[trigger] used[k]),
        decreases storage_sources.len() - i,
    {
        used.push(false);
        i += 1;
    }
    let mut out: Vec<DrawioAssetSource> = Vec::new();
    assert(marked(used@) =~= Set::empty());
    assert(source_views(out@) =~= in_order(Seq::empty(), rendered, stored));
    let mut i: usize = 0;
    while i < rendered_sources.len()
        invariant
            rendered == source_views(rendered_sources@),
            stored == source_views(storage_sources@),
            used.len() == storage_sources.len(),
            i <= rendered_sources.len(),
            marked(used@) == matched_order(rendered, stored, i as int).1,
            source_views(out@) == in_order(
                matched_order(rendered, stored, i as int).0,
                rendered,
                stored,
            ),
        decreases rendered_sources.len() - i,
    {
        assert(rendered[i as int] == rendered_sources@[i as int]@);
        let ghost (before, taken) = matched_order(rendered, stored, i as int);
        let ghost views_before = source_views(out@);
        let ghost marks = used@;
        match find_unused_match(&rendered_sources[i], &storage_sources, &used) {
            Some(k) => {
                assert(stored[k as int] == storage_sources@[k as int]@);
                used.set(k, true);
                assert(marked(used@) =~= marked(marks).insert(k as int));
                out.push(storage_sources[k].copy());
                assert(source_views(out@) =~= views_before.push(stored[k as int]));
                assert(source_views(out@) =~= in_order(
                    before.push(Origin::Stored(k as int)),
                    rendered,
                    stored,
                ));
            },
            None => {
                out.push(rendered_sources[i].copy());
                assert(source_views(out@) =~= views_before.push(rendered[i as int]));
                assert(source_views(out@) =~= in_order(
                    before.push(Origin::Rendered(i as int)),
                    rendered,
                    stored,
                ));
            },
        }
        i += 1;
    }
    let ghost (matched, taken) = matched_order(rendered, stored, rendered.len() as int);
    assert(matched + unused_order(taken, 0) =~= matched);
    let mut k: usize = 0;
    while k < storage_sources.len()
        invariant
            stored == source_views(storage_sources@),
            used.len() == storage_sources.len(),
            marked(used@) == taken,
            k <= storage_sources.len(),
            source_views(out@) == in_order(
                matched + unused_order(taken, k as int),
                rendered,
                stored,
            ),
        decreases storage_sources.len() - k,
    {
        let ghost views_before = source_views(out@);
        assert(stored[k as int] == storage_sources@[k as int]@);
        assert(taken.contains(k as int) == used@[k as int]);
        if !used[k] {
            out.push(storage_sources[k].copy());
            assert(source_views(out@) =~= views_before.push(stored[k as int]));
        }
        k += 1;
        assert(source_views(out@) =~= in_order(
            matched + unused_order(taken, k as int),
            rendered,
            stored,
        ));
    }
    out
}

proof fn lemma_unused_match(r: SourceModel, stored: Seq<SourceModel>, used: Set<int>, i: int)
    requires
        0 <= i,
    ensures
        unused_match(r, stored, used, i) matches Some(k) ==> i <= k < stored.len()
            && !used.contains(k) && same_image(r, stored[k]),
    decreases stored.len() - i,
{
    if i < stored.len() && (used.contains(i) || !same_image(r, stored[i])) {
        lemma_unused_match(r, stored, used, i + 1);
    }
}

proof fn lemma_matched_order(rendered: Seq<SourceModel>, stored: Seq<SourceModel>, n: int)
    requires
        0 <= n <= rendered.len(),
    ensures
        ({
            let (order, used) = matched_order(rendered, stored, n);
            &&& order.len() == n
            &&& order.no_duplicates()
            &&& forall|i: int|
                0 <= i < n ==> match #[trigger] order[i] {
                    Origin::Rendered(j) => j == i,
                    Origin::Stored(k) => 0 <= k < stored.len() && used.contains(k) && same_image(
                        rendered[i],
                        stored[k],
                    ),
                }
            &&& forall|k: int| #[trigger]
                used.contains(k) ==> 0 <= k < stored.len() && order.contains(Origin::Stored(k))
        }),
    decreases n,
{
    if n > 0 {
        lemma_matched_order(rendered, stored, n - 1);
        let (before, used) = matched_order(rendered, stored, n - 1);
        let (order, now_used) = matched_order(rendered, stored, n);
        lemma_unused_match(rendered[n - 1], stored, used, 0);
        assert forall|i: int, j: int| 0 <= i < order.len() && 0 <= j < order.len() && i
            != j implies order[i] != order[j] by {
            let a = if i < j {
                i
            } else {
                j
            };
            if i < n - 1 && j < n - 1 {
                assert(before[i] == order[i] && before[j] == order[j]);
            } else {
                assert(before[a] == order[a]);
            }
        }
        assert forall|i: int| 0 <= i < n implies match #[trigger] order[i] {
            Origin::Rendered(j) => j == i,
            Origin::Stored(k) => 0 <= k < stored.len() && now_used.contains(k) && same_image(
                rendered[i],
                stored[k],
            ),
        } by {
            if i < n - 1 {
                assert(order[i] == before[i]);
            }
        }
        assert forall|k: int| #[trigger] now_used.contains(k) implies 0 <= k < stored.len()
            && order.contains(Origin::Stored(k)) by {
            if used.contains(k) {
                assert(before.contains(Origin::Stored(k)));
                let i = choose|i: int| 0 <= i < before.len() && before[i] == Origin::Stored(k);
                assert(order[i] == Origin::Stored(k));
            } else {
                assert(order[n - 1] == Origin::Stored(k));
            }
        }
    }
}

proof fn lemma_unused_order(used: Set<int>, n: int)
    requires
        0 <= n,
    ensures
        ({
            let order = unused_order(used, n);
            &&& order.no_duplicates()
            &&& forall|i: int|
                0 <= i < order.len() ==> (#[trigger] order[i] matches Origin::Stored(k) && 0 <= k
                    < n && !used.contains(k))
            &&& forall|k: int|
                0 <= k < n && !used.contains(k) ==> #[trigger] order.contains(Origin::Stored(k))
        }),
    decreases n,
{
    if n > 0 {
        lemma_unused_order(used, n - 1);
        let before = unused_order(used, n - 1);
        let order = unused_order(used, n);
        if !used.contains(n - 1) {
            assert forall|k: int| 0 <= k < n && !used.contains(k) implies #[trigger] order.contains(
                Origin::Stored(k),
            ) by {
                if k < n - 1 {
                    assert(before.contains(Origin::Stored(k)));
                    let i = choose|i: int| 0 <= i < before.len() && before[i] == Origin::Stored(k);
                    assert(order[i] == Origin::Stored(k));
                } else {
                    assert(order[before.len() as int] == Origin::Stored(k));
                }
            }
        }
    }
}

/// Every stored source occurs exactly once in the final order, and no
/// rendered source twice. As far as there are rendered sources, the order is
/// theirs: each place holds the rendered source or a stored one that shows
/// the same image.
pub proof fn law_every_stored_source_occurs_once(
    rendered: Seq<SourceModel>,
    stored: Seq<SourceModel>,
)
    ensures
        source_order(rendered, stored).no_duplicates(),
        source_order(rendered, stored).len() >= rendered.len(),
        forall|k: int|
            0 <= k < stored.len() ==> #[trigger] source_order(rendered, stored).contains(
                Origin::Stored(k),
            ),
        forall|i: int|
            0 <= i < rendered.len() ==> match #[trigger] source_order(rendered, stored)[i] {
                Origin::Rendered(j) => j == i,
                Origin::Stored(k) => 0 <= k < stored.len() && same_image(rendered[i], stored[k]),
            },
{
    let (matched, used) = matched_order(rendered, stored, rendered.len() as int);
    let rest = unused_order(used, stored.len() as int);
    let order = source_order(rendered, stored);
    lemma_matched_order(rendered, stored, rendered.len() as int);
    lemma_unused_order(used, stored.len() as int);
    assert(order == matched + rest);
    let n = matched.len() as int;
    assert forall|i: int, j: int| 0 <= i < order.len() && 0 <= j < order.len() && i
        != j implies order[i] != order[j] by {
        if i < n && j < n {
            assert(order[i] == matched[i] && order[j] == matched[j]);
        } else if i >= n && j >= n {
            assert(order[i] == rest[i - n] && order[j] == rest[j - n]);
        } else if i < n {
            assert(order[i] == matched[i] && order[j] == rest[j - n]);
        } else {
            assert(order[j] == matched[j] && order[i] == rest[i - n]);
        }
    }
    assert forall|k: int| 0 <= k < stored.len() implies #[trigger] order.contains(
        Origin::Stored(k),
    ) by {
        if used.contains(k) {
            assert(matched.contains(Origin::Stored(k)));
            let i = choose|i: int| 0 <= i < matched.len() && matched[i] == Origin::Stored(k);
            assert(order[i] == Origin::Stored(k));
        } else {
            assert(rest.contains(Origin::Stored(k)));
            let i = choose|i: int| 0 <= i < rest.len() && rest[i] == Origin::Stored(k);
            assert(order[n + i] == Origin::Stored(k));
        }
    }
    assert forall|i: int| 0 <= i < rendered.len() implies match #[trigger] order[i] {
        Origin::Rendered(j) => j == i,
        Origin::Stored(k) => 0 <= k < stored.len() && same_image(rendered[i], stored[k]),
    } by {
        assert(order[i] == matched[i]);
    }
}

// ── Saving diagrams ────────────────────────────────────────────────

/// The stored sources of the first `n` diagrams that a page refers to.
pub open spec fn stored_among(
    refs: Seq<DiagramRefModel>,
    page_id: Seq<char>,
    base_url: Seq<char>,
    attachments: Map<Seq<char>, AttachmentModel>,
    n: int,
) -> Seq<SourceModel>
    decreases n,
{
    if n <= 0 {
        Seq::empty()
    } else {
        let before = stored_among(refs, page_id, base_url, attachments, n - 1);
        match stored_source(refs[n - 1], page_id, base_url, attachments) {
            Some(s) => before.push(s),
            None => before,
        }
    }
}

/// The sources of the diagrams that storage HTML refers to.
pub open spec fn stored_sources(
    storage: Option<Seq<char>>,
    page_id: Seq<char>,
    base_url: Seq<char>,
    attachments: Map<Seq<char>, AttachmentModel>,
) -> Seq<SourceModel> {
    let refs = page_refs(storage);
    stored_among(refs, page_id, base_url, attachments, refs.len() as int)
}

/// The sources of all diagrams of a page, in order.
pub fn drawio_sources(opts: &ResolveDrawioOptions<'_>) -> (r: Vec<DrawioAssetSource>)
    ensures
        ({
            let rendered = rendered_sources(opts.export_html@, opts.base_url@);
            let stored = stored_sources(
                str_view(opts.storage_html),
                opts.page_id@,
                opts.base_url@,
                titled(opts.attachments_by_title@),
            );
            source_views(r@) == in_order(source_order(rendered, stored), rendered, stored)
        }),
{
    let rendered = extract_rendered_drawio_sources(opts.export_html, opts.base_url);
    let refs = extract_drawio_diagrams(opts.storage_html);
    let ghost all = ref_views(refs@);
    let ghost attachments = titled(opts.attachments_by_title@);
    let mut stored: Vec<DrawioAssetSource> = Vec::new();
    assert(source_views(stored@) =~= Seq::empty());
    let mut i: usize = 0;
    while i < refs.len()
        invariant
            all == ref_views(refs@),
            attachments == titled(opts.attachments_by_title@),
            i <= refs.len(),
            source_views(stored@) == stored_among(
                all,
                opts.page_id@,
                opts.base_url@,
                attachments,
                i as int,
            ),
        decreases refs.len() - i,
    {
        assert(all[i as int] == refs@[i as int]@);
        let ghost before = source_views(stored@);
        if let Some(s) = storage_drawio_source(&refs[i], opts) {
            let ghost model = s@;
            stored.push(s);
            assert(source_views(stored@) =~= before.push(model));
        }
        i += 1;
    }
    order_drawio_sources(rendered, stored)
}

/// Picks a free file name for a wanted one, and marks it as used.
pub fn pick_unique(used: &mut NameSet, candidate: &str) -> (r: String)
    requires
        old(used).count() < u32::MAX,
    ensures
        is_free_name(r@, candidate@, old(used)@),
        !old(used)@.contains(r@),
        final(used)@ == old(used)@.insert(r@),
        final(used).count() == old(used).count() + 1,
{
    unique_file_name(candidate, used)
}

/// Chooses the file for a text under a wanted name, and marks it as used.
pub fn place_asset(wanted: &str, markdown_image_prefix: &str, used: &mut NameSet) -> (r: AssetPlace)
    requires
        old(used).count() < u32::MAX,
    ensures
        is_free_name(r.file_name@, sanitized(wanted@), old(used)@),
        !old(used)@.contains(r.file_name@),
        r.markdown_path@ == asset_path(markdown_image_prefix@, r.file_name@),
        final(used)@ == old(used)@.insert(r.file_name@),
        final(used).count() == old(used).count() + 1,
{
    let file_name = pick_unique(used, &sanitize_file_name(wanted));
    let markdown_path = to_markdown_asset_path(markdown_image_prefix, &file_name);
    AssetPlace { file_name, markdown_path }
}

/// What to do about the source of a diagram.
#[derive(Debug)]
pub enum XmlStep {
    /// No source is known.
    Skip,
    /// The source has to be downloaded from an address.
    Fetch(String),
    /// The source has been asked for before: its text, or nothing where that
    /// failed.
    Use(Option<String>),
}

/// What to do about the source of a diagram, given the sources that have been
/// asked for.
pub fn xml_step(xml_url: &Option<String>, asked: &AnswerMap) -> (r: XmlStep)
    ensures
        match opt_view(*xml_url) {
            None => r is Skip,
            Some(url) => if asked@.contains_key(url) {
                r matches XmlStep::Use(text) && opt_view(text) == asked@[url]
            } else {
                r matches XmlStep::Fetch(u) && u@ == url
            },
        },
{
    match xml_url {
        None => XmlStep::Skip,
        Some(url) => match asked.get(url) {
            Some(text) => XmlStep::Use(text),
            None => XmlStep::Fetch(url.clone()),
        },
    }
}

/// The source that goes into the image of a diagram: the one diagram that it
/// shows, and the whole document where that cannot be found.
pub open spec fn source_to_embed(xml: Seq<char>, aspect_hash: Option<Seq<char>>) -> Seq<char> {
    match filtered(xml, aspect_hash) {
        Some(one) => one,
        None => xml,
    }
}

/// The image of a diagram with its source embedded, where there is a source
/// and the image is a PNG file.
pub open spec fn diagram_file(
    png: Seq<u8>,
    xml: Option<Seq<char>>,
    aspect_hash: Option<Seq<char>>,
) -> Seq<u8> {
    match xml {
        Some(x) => if is_png(png) {
            embedded(png, source_to_embed(x, aspect_hash))
        } else {
            png
        },
        None => png,
    }
}

/// The image of a diagram with its source embedded, and what could not be
/// done: the page of the source was not found, so that the whole document went
/// in, or nothing could be embedded.
#[derive(Debug)]
pub struct FinishedDiagram {
    pub png: Vec<u8>,
    pub page_missing: bool,
    pub error: Option<EmbedError>,
}

/// Embeds the source of a diagram in its image.
pub fn finish_diagram(png: Vec<u8>, xml: Option<&str>, aspect_hash: Option<&str>) -> (r:
    FinishedDiagram)
    ensures
        r.png@ == diagram_file(png@, str_view(xml), str_view(aspect_hash)),
        r.page_missing == (str_view(xml) matches Some(x) && filtered(
            x,
            str_view(aspect_hash),
        ) is None),
        r.error == if xml is Some && !is_png(png@) {
            Some(EmbedError::NotAPng)
        } else {
            None
        },
{
    match xml {
        Some(x) => {
            let (one, page_missing) = match filter_mxfile_to_aspect_hash(x, aspect_hash) {
                Some(f) => (f, false),
                None => (x.to_owned(), true),
            };
            match embed_drawio_xml_in_png(&png, &one) {
                Ok(out) => FinishedDiagram { png: out, page_missing, error: None },
                Err(e) => FinishedDiagram { png, page_missing, error: Some(e) },
            }
        },
        None => FinishedDiagram { png, page_missing: false, error: None },
    }
}

/// A page with its diagrams shown as local images.
#[derive(Debug)]
pub struct FallbackResult {
    pub html: String,
    pub fallback_paths: Vec<String>,
}

impl Default for FallbackResult {
    fn default() -> (r: Self)
        ensures
            r.html@ == Seq::<char>::empty(),
            r.fallback_paths@ == Seq::<String>::empty(),
    {
        FallbackResult { html: String::new(), fallback_paths: Vec::new() }
    }
}

/// Shows the diagrams of a page as the local images that have been saved.
pub fn show_drawio_images(export_html: &str, local_paths: Vec<String>) -> (r: FallbackResult)
    ensures
        r.html@ == images_replaced(
            scripts_replaced(export_html@, views(local_paths@)),
            views(local_paths@),
        ),
        r.fallback_paths == local_paths,
{
    let html = replace_drawio_script_blocks_with_imgs(Some(export_html), &local_paths);
    let html = replace_drawio_img_srcs(&html, &local_paths);
    FallbackResult { html, fallback_paths: local_paths }
}

} // verus!
