//! PlantUML diagrams of a page: their sources, the files they include, and
//! the images that stand in for them.

use vstd::hash_map::StringHashMap;
use vstd::prelude::*;
use vstd::string::StringExecFns;

use crate::confluence::{attachment_download_url, download_url, titled, Attachment, AttachmentModel};
use crate::drawio::{
    append_fallback_diagrams_section, with_fallbacks, FallbackDiagram, FallbackResult,
};
use crate::lookup::NameSet;
use crate::macros::{
    all_texts, extract_macro_blocks, extract_macro_param, macro_param, macro_pattern, CODE_BODY,
};
use crate::pattern::{
    all_matches, find_all, first_group, first_group_of, fits, found_views, group_text, rewrite,
    rewrite_by_number, rewritten, rewritten_by_number, well_placed, Found, Span,
};
use crate::text::{
    ascii_lower, chars_of, joined, lower, opt_view, or_empty, same_text, skip_back, str_view, trim,
    trimmed, views, white,
};
use crate::utils::{escape_html, escaped};

verus! {

/// What it takes to find the PlantUML diagrams of a page.
pub struct ResolvePlantUmlOptions<'a> {
    pub page_id: &'a str,
    pub storage_html: Option<&'a str>,
    pub html: &'a str,
    pub attachments_by_title: &'a StringHashMap<Attachment>,
    pub base_url: &'a str,
    pub token: &'a str,
    pub assets_abs_dir: &'a str,
    pub markdown_image_prefix: &'a str,
    pub used_names: &'a mut NameSet,
}

/// What it takes to download the files that diagrams include.
pub struct DownloadIncludesOptions<'a> {
    pub page_id: &'a str,
    pub attachments_by_title: &'a StringHashMap<Attachment>,
    pub base_url: &'a str,
    pub token: &'a str,
    pub assets_abs_dir: &'a str,
    pub markdown_image_prefix: &'a str,
}

// ── Exported files ─────────────────────────────────────────────────

/// The ASCII letters and digits.
pub open spec fn alphanumeric() -> spec_fn(char) -> bool {
    |c: char| '0' <= c <= '9' || 'A' <= c <= 'Z' || 'a' <= c <= 'z'
}

/// Whether a name ends in a dot and at least one letter or digit.
pub open spec fn has_extension(name: Seq<char>) -> bool {
    let i = skip_back(name, alphanumeric(), name.len() as int);
    0 < i < name.len() && name[i - 1] == '.'
}

fn name_has_extension(name: &str) -> (r: bool)
    ensures
        r == has_extension(name@),
{
    let t = chars_of(name);
    let mut i: usize = t.len();
    while i > 0 && (('0' <= t[i - 1] && t[i - 1] <= '9') || ('A' <= t[i - 1] && t[i - 1] <= 'Z') || (
    'a' <= t[i - 1] && t[i - 1] <= 'z'))
        invariant
            t@ == name@,
            i <= t.len(),
            skip_back(t@, alphanumeric(), t@.len() as int) == skip_back(
                t@,
                alphanumeric(),
                i as int,
            ),
        decreases i,
    {
        i -= 1;
    }
    0 < i && i < t.len() && t[i - 1] == '.'
}

/// The file that a diagram is exported to: its name, with the extension of
/// its format where it has none. All formats but SVG are PNG.
pub open spec fn export_file(name: Seq<char>, format: Option<Seq<char>>) -> Seq<char> {
    if has_extension(name) {
        name
    } else if format matches Some(f) && lower(f) == "svg"@ {
        name + ".svg"@
    } else {
        name + ".png"@
    }
}

/// The file that a diagram is exported to.
pub fn export_file_name(name: String, format: Option<String>) -> (r: String)
    ensures
        r@ == export_file(name@, opt_view(format)),
{
    if name_has_extension(&name) {
        return name;
    }
    let is_svg = match format {
        Some(f) => same_text(&ascii_lower(&f), "svg"),
        None => false,
    };
    if is_svg {
        joined(&name, ".svg")
    } else {
        joined(&name, ".png")
    }
}

/// The files that the diagrams in the first `n` macro blocks are exported to.
pub open spec fn exports_among(blocks: Seq<Seq<char>>, n: int) -> Seq<Seq<char>>
    decreases n,
{
    if n <= 0 {
        Seq::empty()
    } else {
        match macro_param(blocks[n - 1], "exportName"@) {
            Some(name) => exports_among(blocks, n - 1).push(
                export_file(name, macro_param(blocks[n - 1], "format"@)),
            ),
            None => exports_among(blocks, n - 1),
        }
    }
}

/// The PlantUML macro blocks of storage HTML.
pub open spec fn plantuml_blocks(storage: Option<Seq<char>>) -> Seq<Seq<char>> {
    all_texts(macro_pattern("plantuml"@), or_empty(storage))
}

/// The files that the diagrams of a page are exported to.
pub open spec fn page_exports(storage: Option<Seq<char>>) -> Seq<Seq<char>> {
    exports_among(plantuml_blocks(storage), plantuml_blocks(storage).len() as int)
}

fn list_blocks(storage_html: Option<&str>) -> (r: Vec<String>)
    ensures
        views(r@) == plantuml_blocks(str_view(storage_html)),
{
    let html = match storage_html {
        Some(h) => h,
        None => "",
    };
    proof {
        reveal_strlit("");
        assert(html@ =~= or_empty(str_view(storage_html)));
    }
    extract_macro_blocks(html, "plantuml")
}

/// The files that the diagrams of a page are exported to.
pub fn extract_plantuml_export_files(storage_html: Option<&str>) -> (r: Vec<String>)
    ensures
        views(r@) == page_exports(str_view(storage_html)),
{
    let blocks = list_blocks(storage_html);
    let ghost all = views(blocks@);
    let mut files: Vec<String> = Vec::new();
    assert(views(files@) =~= Seq::empty());
    let mut i: usize = 0;
    while i < blocks.len()
        invariant
            all == views(blocks@),
            i <= blocks.len(),
            views(files@) == exports_among(all, i as int),
        decreases blocks.len() - i,
    {
        assert(all[i as int] == blocks@[i as int]@);
        let ghost before = views(files@);
        if let Some(name) = extract_macro_param(&blocks[i], "exportName") {
            let file = export_file_name(name, extract_macro_param(&blocks[i], "format"));
            let ghost next = file@;
            files.push(file);
            assert(views(files@) =~= before.push(next));
        }
        i += 1;
    }
    files
}

// ── Sources ────────────────────────────────────────────────────────

/// The sources of the diagrams in the first `n` macro blocks.
pub open spec fn sources_among(blocks: Seq<Seq<char>>, n: int) -> Seq<Seq<char>>
    decreases n,
{
    if n <= 0 {
        Seq::empty()
    } else {
        match first_group(CODE_BODY@, blocks[n - 1], 1) {
            Some(source) => sources_among(blocks, n - 1).push(source),
            None => sources_among(blocks, n - 1),
        }
    }
}

/// The sources of the diagrams of a page.
pub open spec fn page_sources(storage: Option<Seq<char>>) -> Seq<Seq<char>> {
    sources_among(plantuml_blocks(storage), plantuml_blocks(storage).len() as int)
}

/// The sources of the diagrams of a page.
pub fn extract_plantuml_sources(storage_html: Option<&str>) -> (r: Vec<String>)
    ensures
        views(r@) == page_sources(str_view(storage_html)),
{
    let blocks = list_blocks(storage_html);
    let ghost all = views(blocks@);
    let mut sources: Vec<String> = Vec::new();
    assert(views(sources@) =~= Seq::empty());
    let mut i: usize = 0;
    while i < blocks.len()
        invariant
            all == views(blocks@),
            i <= blocks.len(),
            views(sources@) == sources_among(all, i as int),
        decreases blocks.len() - i,
    {
        assert(all[i as int] == blocks@[i as int]@);
        let ghost before = views(sources@);
        if let Some(source) = first_group_of(CODE_BODY, &blocks[i], 1) {
            let ghost next = source@;
            sources.push(source);
            assert(views(sources@) =~= before.push(next));
        }
        i += 1;
    }
    sources
}

/// The pattern of an image of the PlantUML service.
pub const PLANTUML_IMAGE: &'static str =
    r#"(?is)<img\b[^>]*\bsrc=['"][^'"]*/rest/plantuml/[^'"]*['"][^>]*/?>"#;

/// The code block of a diagram's source.
pub open spec fn source_html(source: Seq<char>) -> Seq<char> {
    "<pre><code class=\"language-plantuml\">"@ + escaped(source) + "</code></pre>"@
}

/// What replaces an image of the PlantUML service: the source of the same
/// number, and nothing where there are fewer sources.
pub open spec fn source_rewriting(sources: Seq<Seq<char>>) -> spec_fn(
    int,
    Seq<char>,
    Seq<Option<Span>>,
) -> Seq<char> {
    |n: int, t: Seq<char>, m: Seq<Option<Span>>|
        if n < sources.len() {
            source_html(sources[n])
        } else {
            Seq::empty()
        }
}

/// A page with the images of the PlantUML service replaced by sources.
pub open spec fn images_as_code(html: Seq<char>, sources: Seq<Seq<char>>) -> Seq<char> {
    if sources.len() == 0 {
        html
    } else {
        rewritten_by_number(PLANTUML_IMAGE@, html, source_rewriting(sources))
    }
}

/// Replaces the images of the PlantUML service by the sources of the
/// diagrams, in order.
pub fn replace_plantuml_imgs_with_code(html: &str, sources: &[String]) -> (r: String)
    ensures
        r@ == images_as_code(html@, views(sources@)),
{
    if sources.len() == 0 {
        return html.to_owned();
    }
    let f = |n: usize, t: &[char], m: &Found| -> (r: String)
        ensures
            r@ == source_rewriting(views(sources@))(n as int, t@, m@),
        {
            if n < sources.len() {
                let mut out: String = "<pre><code class=\"language-plantuml\">".to_owned();
                out.append(&escape_html(&sources[n]));
                out.append("</code></pre>");
                out
            } else {
                String::new()
            }
        };
    rewrite_by_number(PLANTUML_IMAGE, html, f, Ghost(source_rewriting(views(sources@))))
}

// ── Included files ─────────────────────────────────────────────────

/// The pattern of an include of an attachment: what stands before the name, the
/// name.
pub const INCLUDE: &'static str = r"(?m)^(\s*!include\s+)\^(.+)$";

/// The texts of a list without repetitions, the first `n` of them.
pub open spec fn distinct(v: Seq<Seq<char>>, n: int) -> Seq<Seq<char>>
    decreases n,
{
    if n <= 0 {
        Seq::empty()
    } else if distinct(v, n - 1).contains(v[n - 1]) {
        distinct(v, n - 1)
    } else {
        distinct(v, n - 1).push(v[n - 1])
    }
}

/// The files that a source includes from the attachments of its page.
pub open spec fn includes_of(source: Seq<char>) -> Seq<Seq<char>> {
    let ms = all_matches(INCLUDE@, source);
    Seq::new(ms.len(), |i: int| trimmed(group_text(source, ms[i], 2), white()))
}

/// The files that the first `n` sources include.
pub open spec fn all_includes(sources: Seq<Seq<char>>, n: int) -> Seq<Seq<char>>
    decreases n,
{
    if n <= 0 {
        Seq::empty()
    } else {
        all_includes(sources, n - 1) + includes_of(sources[n - 1])
    }
}

fn list_includes(source: &str) -> (r: Vec<String>)
    ensures
        views(r@) == includes_of(source@),
{
    let t = chars_of(source);
    let ms = find_all(INCLUDE, source);
    let ghost found = found_views(ms@);
    let mut out: Vec<String> = Vec::new();
    let mut i: usize = 0;
    while i < ms.len()
        invariant
            t@ == source@,
            found == found_views(ms@),
            well_placed(t@.len(), found),
            i <= ms.len(),
            out.len() == i,
            forall|k: int|
                0 <= k < i ==> (#[trigger] out[k])@ == trimmed(
                    group_text(t@, found[k], 2),
                    white(),
                ),
        decreases ms.len() - i,
    {
        assert(fits(t@.len(), found[i as int]));
        out.push(trim(&ms[i].group_text(&t, 2)));
        i += 1;
    }
    assert(views(out@) =~= includes_of(source@));
    out
}

fn holds(v: &Vec<String>, name: &str) -> (r: bool)
    ensures
        r == views(v@).contains(name@),
{
    let ghost all = views(v@);
    let mut i: usize = 0;
    while i < v.len()
        invariant
            all == views(v@),
            i <= v.len(),
            forall|k: int| 0 <= k < i ==> (#[trigger] all[k]) != name@,
        decreases v.len() - i,
    {
        assert(all[i as int] == v@[i as int]@);
        if same_text(&v[i], name) {
            assert(all[i as int] == name@);
            return true;
        }
        i += 1;
    }
    false
}

/// The files that sources include from the attachments of their page, each
/// once.
pub fn included_files(sources: &[String]) -> (r: Vec<String>)
    ensures
        ({
            let all = all_includes(views(sources@), sources@.len() as int);
            views(r@) == distinct(all, all.len() as int)
        }),
{
    let mut all: Vec<String> = Vec::new();
    assert(views(all@) =~= Seq::empty());
    let mut i: usize = 0;
    while i < sources.len()
        invariant
            i <= sources.len(),
            views(all@) == all_includes(views(sources@), i as int),
        decreases sources.len() - i,
    {
        let ghost before = views(all@);
        assert(views(sources@)[i as int] == sources@[i as int]@);
        let mut files = list_includes(&sources[i]);
        let ghost next = views(files@);
        all.append(&mut files);
        assert(views(all@) =~= before + next);
        i += 1;
    }
    let ghost every = views(all@);
    let mut out: Vec<String> = Vec::new();
    assert(views(out@) =~= Seq::empty());
    let mut i: usize = 0;
    while i < all.len()
        invariant
            every == views(all@),
            i <= all.len(),
            views(out@) == distinct(every, i as int),
        decreases all.len() - i,
    {
        assert(every[i as int] == all@[i as int]@);
        let ghost before = views(out@);
        if !holds(&out, &all[i]) {
            out.push(all[i].clone());
            assert(views(out@) =~= before.push(every[i as int]));
        }
        i += 1;
    }
    out
}

proof fn lemma_distinct(v: Seq<Seq<char>>, n: int)
    requires
        0 <= n <= v.len(),
    ensures
        distinct(v, n).no_duplicates(),
        forall|i: int| 0 <= i < n ==> distinct(v, n).contains(#[trigger] v[i]),
        forall|i: int| 0 <= i < distinct(v, n).len() ==> v.contains(#[trigger] distinct(v, n)[i]),
    decreases n,
{
    if n > 0 {
        lemma_distinct(v, n - 1);
        let before = distinct(v, n - 1);
        let after = distinct(v, n);
        assert forall|i: int| 0 <= i < n implies after.contains(#[trigger] v[i]) by {
            if i < n - 1 {
                assert(before.contains(v[i]));
                let k = choose|k: int| 0 <= k < before.len() && before[k] == v[i];
                assert(after[k] == v[i]);
            } else if !before.contains(v[n - 1]) {
                assert(after[before.len() as int] == v[i]);
            }
        }
        assert forall|i: int| 0 <= i < after.len() implies v.contains(#[trigger] after[i]) by {
            if i < before.len() {
                assert(after[i] == before[i]);
            } else {
                assert(after[i] == v[n - 1]);
            }
        }
    }
}

/// Every included file is listed, none twice, and nothing else.
pub proof fn law_each_include_once(sources: Seq<Seq<char>>)
    ensures
        ({
            let all = all_includes(sources, sources.len() as int);
            let files = distinct(all, all.len() as int);
            &&& files.no_duplicates()
            &&& forall|x: Seq<char>| #[trigger] files.contains(x) <==> all.contains(x)
        }),
{
    let all = all_includes(sources, sources.len() as int);
    let files = distinct(all, all.len() as int);
    lemma_distinct(all, all.len() as int);
    assert forall|x: Seq<char>| #[trigger] files.contains(x) <==> all.contains(x) by {
        if files.contains(x) {
            let i = choose|i: int| 0 <= i < files.len() && files[i] == x;
            assert(all.contains(files[i]));
        }
        if all.contains(x) {
            let i = choose|i: int| 0 <= i < all.len() && all[i] == x;
            assert(files.contains(all[i]));
        }
    }
}

/// A file that a source includes, and where it is.
#[derive(Debug)]
pub struct IncludeDownload {
    pub file_name: String,
    pub url: String,
}

/// The files and addresses of a list of includes.
pub open spec fn include_views(v: Seq<IncludeDownload>) -> Seq<(Seq<char>, Seq<char>)> {
    Seq::new(v.len(), |i: int| (v[i].file_name@, v[i].url@))
}

/// The first `n` files that are attached to the page, with their addresses.
pub open spec fn attached_among(
    files: Seq<Seq<char>>,
    attachments: Map<Seq<char>, AttachmentModel>,
    base_url: Seq<char>,
    page_id: Seq<char>,
    n: int,
) -> Seq<(Seq<char>, Seq<char>)>
    decreases n,
{
    if n <= 0 {
        Seq::empty()
    } else {
        let before = attached_among(files, attachments, base_url, page_id, n - 1);
        if attachments.contains_key(files[n - 1]) {
            before.push(
                (files[n - 1], download_url(base_url, page_id, attachments[files[n - 1]])),
            )
        } else {
            before
        }
    }
}

/// The included files to download. A file that is not attached to the page is
/// passed over.
pub fn plan_includes(files: &Vec<String>, opts: &DownloadIncludesOptions<'_>) -> (r: Vec<
    IncludeDownload,
>)
    ensures
        include_views(r@) == attached_among(
            views(files@),
            titled(opts.attachments_by_title@),
            opts.base_url@,
            opts.page_id@,
            files@.len() as int,
        ),
{
    let ghost all = views(files@);
    let ghost attachments = titled(opts.attachments_by_title@);
    let mut out: Vec<IncludeDownload> = Vec::new();
    assert(include_views(out@) =~= Seq::empty());
    let mut i: usize = 0;
    while i < files.len()
        invariant
            all == views(files@),
            attachments == titled(opts.attachments_by_title@),
            i <= files.len(),
            include_views(out@) == attached_among(
                all,
                attachments,
                opts.base_url@,
                opts.page_id@,
                i as int,
            ),
        decreases files.len() - i,
    {
        assert(all[i as int] == files@[i as int]@);
        let ghost before = include_views(out@);
        if let Some(attachment) = opts.attachments_by_title.get(&files[i]) {
            let url = attachment_download_url(opts.base_url, opts.page_id, attachment);
            let ghost next = (files@[i as int]@, url@);
            out.push(IncludeDownload { file_name: files[i].clone(), url });
            assert(include_views(out@) =~= before.push(next));
        }
        i += 1;
    }
    out
}

/// An include line that reads the file from the asset directory.
pub open spec fn include_line(before: Seq<char>, file: Seq<char>, prefix: Seq<char>) -> Seq<char> {
    before + prefix + "/"@ + trimmed(file, white())
}

/// What replaces an include of an attachment.
pub open spec fn include_rewriting(prefix: Seq<char>) -> spec_fn(
    Seq<char>,
    Seq<Option<Span>>,
) -> Seq<char> {
    |t: Seq<char>, m: Seq<Option<Span>>|
        include_line(group_text(t, m, 1), group_text(t, m, 2), prefix)
}

/// Lets a source include attachments from the asset directory.
pub fn rewrite_includes(source: &str, markdown_image_prefix: &str) -> (r: String)
    ensures
        r@ == rewritten(INCLUDE@, source@, include_rewriting(markdown_image_prefix@)),
{
    let f = |t: &[char], m: &Found| -> (r: String)
        requires
            fits(t@.len(), m@),
        ensures
            r@ == include_rewriting(markdown_image_prefix@)(t@, m@),
        {
            let mut out: String = m.group_text(t, 1);
            out.append(markdown_image_prefix);
            out.append("/");
            out.append(&trim(&m.group_text(t, 2)));
            out
        };
    rewrite(INCLUDE, source, f, Ghost(include_rewriting(markdown_image_prefix@)))
}

/// Lets sources include attachments from the asset directory.
pub fn rewrite_all_includes(sources: &[String], markdown_image_prefix: &str) -> (r: Vec<String>)
    ensures
        views(r@) == Seq::new(
            sources@.len(),
            |i: int|
                rewritten(INCLUDE@, sources@[i]@, include_rewriting(markdown_image_prefix@)),
        ),
{
    let mut out: Vec<String> = Vec::new();
    let mut i: usize = 0;
    while i < sources.len()
        invariant
            i <= sources.len(),
            out.len() == i,
            forall|k: int|
                0 <= k < i ==> (#[trigger] out[k])@ == rewritten(
                    INCLUDE@,
                    sources@[k]@,
                    include_rewriting(markdown_image_prefix@),
                ),
        decreases sources.len() - i,
    {
        out.push(rewrite_includes(&sources[i], markdown_image_prefix));
        i += 1;
    }
    assert(views(out@) =~= Seq::new(
        sources@.len(),
        |i: int| rewritten(INCLUDE@, sources@[i]@, include_rewriting(markdown_image_prefix@)),
    ));
    out
}

// ── Showing diagrams ───────────────────────────────────────────────

/// How the PlantUML diagrams of a page are shown: by their sources, by the
/// files they were exported to, or not at all.
#[derive(Debug)]
pub enum PlantUmlPlan {
    Sources(Vec<String>),
    Exports(Vec<String>),
    Nothing,
}

/// How the PlantUML diagrams of a page are shown. Sources go before exported
/// files.
pub fn plan_plantuml(opts: &ResolvePlantUmlOptions<'_>) -> (r: PlantUmlPlan)
    ensures
        ({
            let sources = page_sources(str_view(opts.storage_html));
            let exports = page_exports(str_view(opts.storage_html));
            match r {
                PlantUmlPlan::Sources(v) => views(v@) == sources && sources.len() > 0,
                PlantUmlPlan::Exports(v) => sources.len() == 0 && views(v@) == exports
                    && exports.len() > 0,
                PlantUmlPlan::Nothing => sources.len() == 0 && exports.len() == 0,
            }
        }),
{
    let sources = extract_plantuml_sources(opts.storage_html);
    assert(views(sources@).len() == sources@.len());
    if sources.len() > 0 {
        return PlantUmlPlan::Sources(sources);
    }
    let files = extract_plantuml_export_files(opts.storage_html);
    assert(views(files@).len() == files@.len());
    if files.len() > 0 {
        PlantUmlPlan::Exports(files)
    } else {
        PlantUmlPlan::Nothing
    }
}

/// Shows the diagrams of a page as code blocks.
pub fn show_plantuml_sources(html: &str, sources: &[String]) -> (r: FallbackResult)
    ensures
        r.html@ == images_as_code(html@, views(sources@)),
        r.fallback_paths@ == Seq::<String>::empty(),
{
    FallbackResult {
        html: replace_plantuml_imgs_with_code(html, sources),
        fallback_paths: Vec::new(),
    }
}

/// The diagram of an exported file.
pub fn exported_diagram(file_name: &str, local_path: &str) -> (r: FallbackDiagram)
    ensures
        r.local_path@ == local_path@,
        r.label@ == "PlantUML: "@ + file_name@,
        r.alt@ == file_name@,
{
    FallbackDiagram {
        local_path: local_path.to_owned(),
        label: joined("PlantUML: ", file_name),
        alt: file_name.to_owned(),
    }
}

/// Whether diagrams are listed once by path, and exactly those paths count as
/// shown.
pub open spec fn listed_once(diagrams: Seq<FallbackDiagram>, shown: Set<Seq<char>>) -> bool {
    let paths = Seq::new(diagrams.len(), |i: int| diagrams[i].local_path@);
    paths.no_duplicates() && shown == paths.to_set()
}

/// Adds the diagram of an exported file that has been saved, unless one was
/// saved at the same path before. Diagrams that are listed once stay so.
pub fn add_exported_diagram(
    diagrams: &mut Vec<FallbackDiagram>,
    shown: &mut NameSet,
    file_name: &str,
    local_path: &str,
)
    ensures
        final(shown)@ == old(shown)@.insert(local_path@),
        if old(shown)@.contains(local_path@) {
            final(diagrams)@ == old(diagrams)@
        } else {
            &&& final(diagrams)@.len() == old(diagrams)@.len() + 1
            &&& final(diagrams)@.drop_last() == old(diagrams)@
            &&& final(diagrams)@.last().local_path@ == local_path@
            &&& final(diagrams)@.last().label@ == "PlantUML: "@ + file_name@
            &&& final(diagrams)@.last().alt@ == file_name@
        },
        listed_once(old(diagrams)@, old(shown)@) ==> listed_once(final(diagrams)@, final(shown)@),
{
    if shown.contains(local_path) {
        assert(shown@.insert(local_path@) =~= shown@);
        return;
    }
    let ghost before = diagrams@;
    let ghost known = shown@;
    shown.insert(local_path);
    diagrams.push(exported_diagram(file_name, local_path));
    proof {
        assert(diagrams@.drop_last() =~= before);
        if listed_once(before, known) {
            let old_paths = Seq::new(before.len(), |i: int| before[i].local_path@);
            let paths = Seq::new(diagrams@.len(), |i: int| diagrams@[i].local_path@);
            assert(paths =~= old_paths.push(local_path@));
            assert(!old_paths.contains(local_path@)) by {
                assert(!known.contains(local_path@));
                assert(old_paths.to_set().contains(local_path@) == old_paths.contains(local_path@));
            }
            assert forall|i: int, j: int| 0 <= i < paths.len() && 0 <= j < paths.len() && i
                != j implies paths[i] != paths[j] by {
                if i < old_paths.len() {
                    assert(old_paths.contains(old_paths[i]));
                }
                if j < old_paths.len() {
                    assert(old_paths.contains(old_paths[j]));
                }
            }
            assert forall|x: Seq<char>| shown@.contains(x) == paths.to_set().contains(x) by {
                if old_paths.contains(x) {
                    let k = choose|k: int| 0 <= k < old_paths.len() && old_paths[k] == x;
                    assert(paths[k] == x);
                }
                if x == local_path@ {
                    assert(paths[old_paths.len() as int] == x);
                }
                if paths.contains(x) {
                    let k = choose|k: int| 0 <= k < paths.len() && paths[k] == x;
                    if k < old_paths.len() {
                        assert(old_paths[k] == x);
                    }
                }
            }
            assert(shown@ =~= paths.to_set());
        }
    }
}

/// The exported files that are attached to the page, the first `n` of them,
/// with their attachments.
pub open spec fn exports_attached(
    files: Seq<Seq<char>>,
    attachments: Map<Seq<char>, AttachmentModel>,
    n: int,
) -> Seq<(Seq<char>, AttachmentModel)>
    decreases n,
{
    if n <= 0 {
        Seq::empty()
    } else {
        let before = exports_attached(files, attachments, n - 1);
        if attachments.contains_key(files[n - 1]) {
            before.push((files[n - 1], attachments[files[n - 1]]))
        } else {
            before
        }
    }
}

/// An exported file with the attachment that holds it.
#[derive(Debug)]
pub struct ExportDownload {
    pub file_name: String,
    pub attachment: Attachment,
}

/// The files and attachments of a list of exports.
pub open spec fn export_views(v: Seq<ExportDownload>) -> Seq<(Seq<char>, AttachmentModel)> {
    Seq::new(v.len(), |i: int| (v[i].file_name@, v[i].attachment@))
}

/// The exported files to download. A file that is not attached to the page is
/// passed over.
pub fn plan_exports(files: &Vec<String>, opts: &ResolvePlantUmlOptions<'_>) -> (r: Vec<
    ExportDownload,
>)
    ensures
        export_views(r@) == exports_attached(
            views(files@),
            titled(opts.attachments_by_title@),
            files@.len() as int,
        ),
{
    let ghost all = views(files@);
    let ghost attachments = titled(opts.attachments_by_title@);
    let mut out: Vec<ExportDownload> = Vec::new();
    assert(export_views(out@) =~= Seq::empty());
    let mut i: usize = 0;
    while i < files.len()
        invariant
            all == views(files@),
            attachments == titled(opts.attachments_by_title@),
            i <= files.len(),
            export_views(out@) == exports_attached(all, attachments, i as int),
        decreases files.len() - i,
    {
        assert(all[i as int] == files@[i as int]@);
        let ghost before = export_views(out@);
        if let Some(attachment) = opts.attachments_by_title.get(&files[i]) {
            let ghost next = (files@[i as int]@, attachment@);
            out.push(
                ExportDownload { file_name: files[i].clone(), attachment: attachment.copy() },
            );
            assert(export_views(out@) =~= before.push(next));
        }
        i += 1;
    }
    out
}

/// Shows exported diagrams at the end of a page.
pub fn show_exported_diagrams(html: &str, diagrams: &Vec<FallbackDiagram>) -> (r: FallbackResult)
    ensures
        r.html@ == with_fallbacks(html@, diagrams@),
        views(r.fallback_paths@) == Seq::new(diagrams@.len(), |i: int| diagrams@[i].local_path@),
{
    let mut fallback_paths: Vec<String> = Vec::new();
    let mut i: usize = 0;
    while i < diagrams.len()
        invariant
            i <= diagrams.len(),
            fallback_paths.len() == i,
            forall|k: int| 0 <= k < i ==> (#[trigger] fallback_paths[k])@ == diagrams@[k].local_path@,
        decreases diagrams.len() - i,
    {
        fallback_paths.push(diagrams[i].local_path.clone());
        i += 1;
    }
    assert(views(fallback_paths@) =~= Seq::new(
        diagrams@.len(),
        |i: int| diagrams@[i].local_path@,
    ));
    FallbackResult { html: append_fallback_diagrams_section(html, diagrams), fallback_paths }
}

} // verus!
