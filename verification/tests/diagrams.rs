//! Diagram sources, files and macros.

use confluence2md::confluence::{build_attachment_maps, Attachment};
use confluence2md::drawio::{
    append_fallback_diagrams_section, drawio_sources, extract_drawio_diagrams, finish_diagram,
    order_drawio_sources, pick_unique, place_asset, read_title,
    replace_drawio_script_blocks_with_imgs, show_drawio_images, source_from_rendered_drawio_src,
    storage_drawio_source, xml_step, DrawioAssetSource, DrawioDiagramRef, FallbackDiagram,
    FallbackResult, ResolveDrawioOptions, XmlStep,
};
use confluence2md::jira::{
    find_jira_browse_base_url, jira_link_html, render_issue, render_issue_link, replace_jira_macros,
};
use confluence2md::lookup::{AnswerMap, NameSet};
use confluence2md::macros::{
    class_is_finished, is_inside_anchor, render_alert_html, render_code_block, render_expand,
    render_gdrive_link, render_task_item, replace_expand_macros, task_item_is_checked,
};
use confluence2md::mxfile::{
    choose_diagram, filter_mxfile_to_aspect_hash, keep_diagram, Diagram, hex_of, read_document, XmlAttribute, XmlEvent,
};
use confluence2md::plantuml::{
    add_exported_diagram, export_file_name, extract_plantuml_export_files, included_files,
    plan_exports, plan_includes, plan_plantuml, rewrite_all_includes, show_exported_diagrams,
    show_plantuml_sources, DownloadIncludesOptions, PlantUmlPlan, ResolvePlantUmlOptions,
};
use confluence2md::png::{build_png_text_chunk, crc32, embed_drawio_xml_in_png, EmbedError};
use confluence2md::text::chars_of;

const BASE: &str = "https://confluence.example.com";
const HASH: &str = "aaaaaaaaaaaaaaaaaaaaaaaaaaaaaaaaaaaaaaaa";

fn attachment(title: &str) -> Attachment {
    Attachment {
        id: "1".to_owned(),
        title: title.to_owned(),
        media_type: None,
        download_path: None,
        webui_path: None,
    }
}

fn source(page: &str, png: &str, name: &str) -> DrawioAssetSource {
    DrawioAssetSource {
        page_id: page.to_owned(),
        diagram_name: name.to_owned(),
        aspect_hash: None,
        png_title: png.to_owned(),
        png_url: String::new(),
        xml_url: None,
        xml_file_name: None,
        output_base_name: String::new(),
    }
}

fn png_header() -> Vec<u8> {
    let mut png = vec![0x89, 0x50, 0x4e, 0x47, 0x0d, 0x0a, 0x1a, 0x0a, 0, 0, 0, 1];
    png.extend_from_slice(b"IHDR");
    png.extend_from_slice(&[9, 1, 2, 3, 4]);
    png.extend_from_slice(b"rest");
    png
}

#[test]
fn checksums() {
    assert_eq!(crc32(b"123456789"), 0xcbf4_3926);
    assert_eq!(crc32(b""), 0);
    assert_eq!(crc32(b"IEND"), 0xae42_6082);
}

#[test]
fn chunks_tell_their_length_and_checksum() {
    let chunk = build_png_text_chunk("k", "text");
    assert_eq!(&chunk[..4], &[0, 0, 0, 6]);
    assert_eq!(&chunk[4..14], b"tEXtk\0text");
    assert_eq!(&chunk[14..], &crc32(b"tEXtk\0text").to_be_bytes());
}

#[test]
fn embedding_needs_the_whole_header() {
    let png = png_header();
    let out = embed_drawio_xml_in_png(&png, "<a/>").unwrap();
    assert_eq!(&out[..21], &png[..21]);
    assert_eq!(&out[out.len() - 4..], b"rest");
    assert!(out.windows(16).any(|w| w == b"mxfile\0%3Ca%2F%3"));
    assert!(embed_drawio_xml_in_png(&png[..20], "<a/>").is_err());
    assert!(embed_drawio_xml_in_png(&png[..10], "<a/>").is_err());
    assert_eq!(
        embed_drawio_xml_in_png(b"", "").unwrap_err().message(),
        "Not a valid PNG file"
    );
}

#[test]
fn diagrams_are_finished() {
    let png = png_header();
    let done = finish_diagram(png.clone(), None, None);
    assert_eq!(done.png, png);
    assert!(!done.page_missing && done.error.is_none());
    let done = finish_diagram(vec![1, 2], Some("<mxfile/>"), None);
    assert_eq!(done.png, vec![1, 2]);
    assert!(done.page_missing);
    assert_eq!(done.error, Some(EmbedError::NotAPng));
    let doc = r#"<mxfile pages="2"><diagram id="a">1</diagram><diagram id="b">2</diagram></mxfile>"#;
    let one = r#"<mxfile pages="1"><diagram id="a">1</diagram></mxfile>"#;
    let done = finish_diagram(png.clone(), Some(doc), None);
    assert_eq!(done.png, embed_drawio_xml_in_png(&png, one).unwrap());
    assert!(!done.page_missing && done.error.is_none());
    let done = finish_diagram(png.clone(), Some(doc), Some("none"));
    assert_eq!(done.png, embed_drawio_xml_in_png(&png, doc).unwrap());
    assert!(done.page_missing && done.error.is_none());
}

#[test]
fn empty_diagrams_count() {
    let doc = r#"<mxfile><diagram id="a"/></mxfile>"#;
    assert_eq!(filter_mxfile_to_aspect_hash(doc, None).as_deref(), Some(doc));
    let doc = "<mxfile><diagram id=\"a\">1</diagram><diagram id=\"b\" /><other/></mxfile>";
    let hash = confluence2md::drawio::sha1_hex(b"b");
    assert_eq!(hash.len(), 40);
    assert_eq!(
        filter_mxfile_to_aspect_hash(doc, Some(&hash)).as_deref(),
        Some("<mxfile><diagram id=\"b\" /></mxfile>")
    );
    assert!(filter_mxfile_to_aspect_hash("<mxfile/>", None).is_none());
    assert_eq!(
        filter_mxfile_to_aspect_hash("<mxfile a=1 b='2' b='3'><diagram/></mxfile>", None).as_deref(),
        Some("<mxfile b=\"2\"><diagram/></mxfile>")
    );
}

#[test]
fn only_diagrams_of_the_root_count() {
    assert!(filter_mxfile_to_aspect_hash("<x><mxfile><diagram/></mxfile></x>", None).is_none());
    assert!(filter_mxfile_to_aspect_hash("<mxfile><x><diagram/></x></mxfile>", None).is_none());
    assert!(filter_mxfile_to_aspect_hash("<diagram/><mxfile></mxfile>", None).is_none());
    assert_eq!(
        filter_mxfile_to_aspect_hash(
            "<?xml version=\"1.0\"?><mxfile><x><diagram>1</diagram></x><diagram>2</diagram></mxfile>",
            None
        )
        .as_deref(),
        Some("<mxfile><diagram>2</diagram></mxfile>")
    );
    assert_eq!(
        filter_mxfile_to_aspect_hash("<mxfile><diagram>1</diagram>", None).as_deref(),
        Some("<mxfile><diagram>1</diagram></mxfile>")
    );
}

#[test]
fn elements_are_cut_at_characters() {
    let at = |start: usize, end: usize| {
        keep_diagram("aéb", "<o>", &Diagram { id: String::new(), start, end })
    };
    assert_eq!(at(0, 3).as_deref(), Some("<o>aé</mxfile>"));
    assert_eq!(at(1, 4).as_deref(), Some("<o>éb</mxfile>"));
    assert_eq!(at(0, 2), None);
    assert_eq!(at(2, 4), None);
    assert_eq!(at(0, 5), None);
    assert_eq!(at(3, 1), None);
}

#[test]
fn documents_are_filtered() {
    let doc = "<!-- é -->\n<mxfile a='1' pages=\"2\"><diagram id=\"x&amp;y\"><diagram>n</diagram></diagram><diagram/></mxfile> tail";
    assert_eq!(
        filter_mxfile_to_aspect_hash(doc, None).unwrap(),
        "<mxfile a=\"1\" pages=\"1\"><diagram id=\"x&amp;y\"><diagram>n</diagram></diagram></mxfile> tail"
    );
    let hash = confluence2md::drawio::sha1_hex(b"x&y");
    assert!(filter_mxfile_to_aspect_hash(doc, Some(&hash)).is_some());
    assert_eq!(
        filter_mxfile_to_aspect_hash(doc, Some(&hash.to_uppercase())),
        filter_mxfile_to_aspect_hash(doc, Some(&hash))
    );
    assert!(filter_mxfile_to_aspect_hash("<mxfile><diagram>", None).is_none());
    assert!(filter_mxfile_to_aspect_hash("<mxfile></x>", None).is_none());
    assert!(filter_mxfile_to_aspect_hash("<other><diagram></diagram></other>", None).is_none());
}

#[test]
fn documents_are_read_from_events() {
    let attribute = |k: &str, v: &str| {
        Some(XmlAttribute {
            key: k.to_owned(),
            value: v.to_owned(),
            text: Some(v.to_owned()),
        })
    };
    let events = vec![
        XmlEvent::Start {
            name: "mxfile".to_owned(),
            attributes: vec![attribute("pages", "9"), None, attribute("h", "x")],
            start: 0,
        },
        XmlEvent::Other,
        XmlEvent::Start {
            name: "diagram".to_owned(),
            attributes: vec![attribute("n", "1"), attribute("id", "d")],
            start: 5,
        },
        XmlEvent::End { name: "diagram".to_owned(), end: 9 },
        XmlEvent::Empty {
            name: "diagram".to_owned(),
            attributes: vec![None, attribute("id", "e")],
            start: 9,
            end: 12,
        },
    ];
    let doc = read_document(&events).unwrap();
    assert_eq!(doc.open_tag, r#"<mxfile pages="1" h="x">"#);
    assert_eq!(doc.diagrams.len(), 2);
    assert_eq!((doc.diagrams[1].id.as_str(), doc.diagrams[1].end), ("e", 12));
    assert_eq!((doc.diagrams[0].id.as_str(), doc.diagrams[0].start, doc.diagrams[0].end), ("d", 5, 9));
    assert!(read_document(&events[2..].iter().map(|_| XmlEvent::Other).collect()).is_none());
    assert_eq!(hex_of(&[0, 255, 16]), "00ff10");
}

#[test]
fn diagram_references() {
    let html = r#"<ac:structured-macro ac:name="drawio"><ac:parameter ac:name="diagramName">A</ac:parameter><ac:parameter ac:name="aspectHash">h</ac:parameter></ac:structured-macro><ac:structured-macro ac:name="drawio"></ac:structured-macro><ac:structured-macro ac:name="drawio"><ac:parameter ac:name="diagramName">B</ac:parameter><ac:parameter ac:name="aspectHash"></ac:parameter></ac:structured-macro>"#;
    let refs = extract_drawio_diagrams(Some(html));
    assert_eq!(refs.len(), 2);
    assert_eq!((refs[0].diagram_name.as_str(), refs[0].aspect_hash.as_deref()), ("A", Some("h")));
    assert_eq!((refs[1].diagram_name.as_str(), refs[1].aspect_hash.as_deref()), ("B", None));
}

#[test]
fn script_blocks_become_images() {
    let block = |n: u32| format!(r#"<span id="drawio-macro-content-{n}"></span> <script>x</script>"#);
    let html = format!("a{}b{}c", block(1), block(2));
    let paths = vec!["p".to_owned()];
    assert_eq!(
        replace_drawio_script_blocks_with_imgs(Some(&html), &paths),
        "a<p><img src=\"p\" alt=\"draw.io diagram\" /></p>bc"
    );
    assert_eq!(replace_drawio_script_blocks_with_imgs(Some(&html), &[]), html);
    assert_eq!(replace_drawio_script_blocks_with_imgs(None, &paths), "");
    let shown = show_drawio_images(&html, paths);
    assert_eq!(shown.fallback_paths, vec!["p"]);
    assert!(shown.html.contains("src=\"p\""));
}

#[test]
fn fallback_section() {
    let d = |label: &str, alt: &str| FallbackDiagram {
        local_path: "p".to_owned(),
        label: label.to_owned(),
        alt: alt.to_owned(),
    };
    assert_eq!(append_fallback_diagrams_section("h", &[]), "h");
    assert_eq!(
        append_fallback_diagrams_section("h", &[d("L<", ""), d("", "")]),
        "h\n<hr />\n<h2>Embedded diagrams</h2>\n<div class=\"confluence2md-fallback-diagram\">\n<p>L&lt;</p>\n<p><img src=\"p\" alt=\"L&lt;\" /></p>\n</div>\n<div class=\"confluence2md-fallback-diagram\">\n\n<p><img src=\"p\" alt=\"diagram\" /></p>\n</div>\n"
    );
    assert_eq!(FallbackResult::default().html, "");
}

#[test]
fn titles_of_images() {
    let parts = read_title("a.drawio.png", None);
    assert_eq!((parts.name.as_str(), parts.xml_title.as_str()), ("a", "a.drawio"));
    assert_eq!(parts.output, "a.drawio.png");
    let parts = read_title("x", Some(("n".to_owned(), "h".to_owned())));
    assert_eq!((parts.name.as_str(), parts.hash.as_deref()), ("n", Some("h")));
    assert_eq!(parts.output, "n-h.drawio.png");
    let parts = read_title("a.png.png", None);
    assert_eq!((parts.name.as_str(), parts.output.as_str()), ("a", "a.drawio.png"));
}

#[test]
fn rendered_sources_come_from_attachments() {
    let s = source_from_rendered_drawio_src(
        &format!("/download/attachments/12/My%20D-{HASH}.png?v=1&amp;w=2"),
        BASE,
    )
    .unwrap();
    assert_eq!(s.page_id, "12");
    assert_eq!(s.diagram_name, "My D");
    assert_eq!(s.aspect_hash.as_deref(), Some(HASH));
    assert_eq!(s.png_title, format!("My D-{HASH}.png"));
    assert_eq!(
        s.xml_url.as_deref(),
        Some("https://confluence.example.com/download/attachments/12/My%20D")
    );
    assert_eq!(s.output_base_name, format!("My D-{HASH}.drawio.png"));
    assert!(source_from_rendered_drawio_src("/download/attachments/12/a.gif", BASE).is_none());
    assert!(source_from_rendered_drawio_src("/x/attachments/12/a.png", BASE).is_none());
}

#[test]
fn stored_sources_come_from_references() {
    let maps = build_attachment_maps(&[
        attachment(&format!("A-{HASH}.png")),
        attachment("A.png"),
        attachment("A"),
    ]);
    let mut used = NameSet::new();
    let opts = ResolveDrawioOptions {
        page_id: "1",
        storage_html: None,
        export_html: r#"<img class="x DRAWIO-diagram-image" src='/download/attachments/1/A.png'>"#,
        attachments_by_title: &maps.by_title,
        base_url: BASE,
        token: "t",
        assets_abs_dir: "/out",
        markdown_image_prefix: "P",
        used_names: &mut used,
    };
    let hashed = DrawioDiagramRef {
        diagram_name: "A".to_owned(),
        aspect_hash: Some(HASH.to_owned()),
    };
    let s = storage_drawio_source(&hashed, &opts).unwrap();
    assert_eq!(s.png_title, format!("A-{HASH}.png"));
    assert_eq!(s.output_base_name, format!("A-{HASH}.drawio.png"));
    assert!(s.xml_url.is_some());
    let other = DrawioDiagramRef { diagram_name: "A".to_owned(), aspect_hash: Some("z".to_owned()) };
    assert_eq!(storage_drawio_source(&other, &opts).unwrap().png_title, "A.png");
    let none = DrawioDiagramRef { diagram_name: "B".to_owned(), aspect_hash: None };
    assert!(storage_drawio_source(&none, &opts).is_none());
    let all = drawio_sources(&opts);
    assert_eq!(all.len(), 1);
    assert_eq!(all[0].png_title, "A.png");
}

#[test]
fn every_stored_source_occurs_once() {
    let rendered = vec![source("1", "a", "r1"), source("1", "b", "r2"), source("1", "a", "r3")];
    let stored = vec![source("1", "c", "s1"), source("1", "a", "s2")];
    let order: Vec<String> =
        order_drawio_sources(rendered, stored).into_iter().map(|s| s.diagram_name).collect();
    assert_eq!(order, vec!["s2", "r2", "r3", "s1"]);
}

#[test]
fn diagram_files_get_free_names() {
    let mut used = NameSet::new();
    assert_eq!(pick_unique(&mut used, "a.png"), "a.png");
    let place = place_asset("a.png", "P", &mut used);
    assert_eq!((place.file_name.as_str(), place.markdown_path.as_str()), ("a_1.png", "P%2Fa_1.png"));
    let place = place_asset("a/b: c", "P", &mut used);
    assert_eq!(place.file_name, "a_b_c");
}

#[test]
fn sources_are_asked_for_once() {
    let mut asked = AnswerMap::new();
    let url = Some("u".to_owned());
    assert!(matches!(xml_step(&None, &asked), XmlStep::Skip));
    assert!(matches!(xml_step(&url, &asked), XmlStep::Fetch(u) if u == "u"));
    asked.insert("u".to_owned(), None);
    assert!(matches!(xml_step(&url, &asked), XmlStep::Use(None)));
    asked.insert("u".to_owned(), Some("x".to_owned()));
    assert!(matches!(xml_step(&url, &asked), XmlStep::Use(Some(t)) if t == "x"));
}

fn plantuml(params: &str, body: &str) -> String {
    format!(r#"<ac:structured-macro ac:name="plantuml">{params}{body}</ac:structured-macro>"#)
}

#[test]
fn exports_are_attachments() {
    let maps = build_attachment_maps(&[attachment("b.png")]);
    let mut used = NameSet::new();
    let opts = ResolvePlantUmlOptions {
        page_id: "1",
        storage_html: None,
        html: "",
        attachments_by_title: &maps.by_title,
        base_url: BASE,
        token: "t",
        assets_abs_dir: "/out",
        markdown_image_prefix: "P",
        used_names: &mut used,
    };
    let plan = plan_exports(&vec!["a.png".to_owned(), "b.png".to_owned()], &opts);
    assert_eq!(plan.len(), 1);
    assert_eq!((plan[0].file_name.as_str(), plan[0].attachment.title.as_str()), ("b.png", "b.png"));
}

fn with_plan(storage: &str) -> PlantUmlPlan {
    let maps = build_attachment_maps(&[]);
    let mut used = NameSet::new();
    plan_plantuml(&ResolvePlantUmlOptions {
        page_id: "1",
        storage_html: Some(storage),
        html: "",
        attachments_by_title: &maps.by_title,
        base_url: BASE,
        token: "t",
        assets_abs_dir: "/out",
        markdown_image_prefix: "P",
        used_names: &mut used,
    })
}

#[test]
fn plantuml_plans() {
    let name = r#"<ac:parameter ac:name="exportName">n</ac:parameter>"#;
    let svg = r#"<ac:parameter ac:name="format">SVG</ac:parameter>"#;
    let body = "<ac:plain-text-body><![CDATA[src]]></ac:plain-text-body>";
    assert_eq!(
        extract_plantuml_export_files(Some(&(plantuml(name, "") + &plantuml(&(name.to_owned() + svg), "") + &plantuml("", "")))),
        vec!["n.png", "n.svg"]
    );
    assert!(matches!(with_plan(&plantuml(name, body)), PlantUmlPlan::Sources(v) if v == vec!["src"]));
    assert!(matches!(with_plan(&plantuml(name, "")), PlantUmlPlan::Exports(v) if v == vec!["n.png"]));
    assert!(matches!(with_plan("<p></p>"), PlantUmlPlan::Nothing));
    assert_eq!(export_file_name("a.b1".to_owned(), Some("svg".to_owned())), "a.b1");
    assert_eq!(export_file_name("a.".to_owned(), None), "a..png");
    assert_eq!(export_file_name("ab".to_owned(), Some("txt".to_owned())), "ab.png");
}

#[test]
fn plantuml_includes() {
    let sources = vec!["!include ^a.iuml\n  !include  ^ b.iuml \nx".to_owned(), "!include ^a.iuml".to_owned()];
    let files = included_files(&sources);
    assert_eq!(files, vec!["a.iuml", "b.iuml"]);
    assert_eq!(
        rewrite_all_includes(&sources, "P"),
        vec!["!include P/a.iuml\n  !include  P/b.iuml\nx", "!include P/a.iuml"]
    );
    let maps = build_attachment_maps(&[attachment("b.iuml")]);
    let plan = plan_includes(&files, &DownloadIncludesOptions {
        page_id: "1",
        attachments_by_title: &maps.by_title,
        base_url: BASE,
        token: "t",
        assets_abs_dir: "/out",
        markdown_image_prefix: "P",
    });
    assert_eq!(plan.len(), 1);
    assert_eq!(plan[0].file_name, "b.iuml");
    assert_eq!(plan[0].url, "https://confluence.example.com/download/attachments/1/b.iuml");
}

#[test]
fn plantuml_results() {
    let mut diagrams = Vec::new();
    let mut shown = NameSet::new();
    add_exported_diagram(&mut diagrams, &mut shown, "f", "p");
    add_exported_diagram(&mut diagrams, &mut shown, "g", "p");
    assert_eq!(diagrams.len(), 1);
    assert_eq!(diagrams[0].label, "PlantUML: f");
    let result = show_exported_diagrams("h", &diagrams);
    assert_eq!(result.fallback_paths, vec!["p"]);
    assert!(result.html.starts_with("h\n<hr />"));
    let image = r#"<img src="/rest/plantuml/1">"#;
    let result = show_plantuml_sources(&format!("{image}-{image}"), &["a<b".to_owned()]);
    assert_eq!(result.html, "<pre><code class=\"language-plantuml\">a&lt;b</code></pre>-");
}

#[test]
fn macro_pieces() {
    assert_eq!(render_code_block("c++", "a<b"), "<pre><code class=\"language-c++\">a&lt;b</code></pre>");
    assert_eq!(render_code_block("", ""), "<pre><code></code></pre>");
    assert_eq!(
        render_expand("T", "x<ac:rich-text-body>a</ac:rich-text-body>b</ac:rich-text-body>"),
        "<details><summary>T</summary>a</ac:rich-text-body>b</details>"
    );
    assert_eq!(render_expand("T", "x"), "<details><summary>T</summary></details>");
    assert_eq!(render_expand("", ""), "<details><summary></summary></details>");
    assert_eq!(render_gdrive_link("u&v", false), "<a href=\"u&amp;v\">Google Drive Link</a>");
    assert_eq!(render_gdrive_link("u", true), "Google Drive Link");
    assert_eq!(render_gdrive_link("", false), "Google Drive Link");
    assert!(is_inside_anchor(&chars_of("<a href>x"), 9));
    assert!(!is_inside_anchor(&chars_of("<a href></a>x"), 13));
    assert!(!is_inside_anchor(&chars_of("x"), 1));
    assert_eq!(render_task_item(" a", true, "b"), "<li a>[x] b</li>");
    assert_eq!(render_task_item("", false, "<p> </p>"), "<li>[ ]</li>");
    assert!(class_is_finished("x Checked"));
    assert!(!class_is_finished("unchecked"));
    assert!(task_item_is_checked(r#" aria-checked="true""#));
    assert!(task_item_is_checked(r#" class="complete""#));
    assert!(!task_item_is_checked(r#" class="todo""#));
    assert_eq!(
        render_alert_html("TIP", "b"),
        "<div class=\"confluence-information-macro confluence-information-macro-tip\"><div class=\"confluence-information-macro-body\">b</div></div>"
    );
}

#[test]
fn expand_macros_in_expand_macros() {
    let wrap = |title: &str, body: &str| {
        format!(
            "<ac:structured-macro ac:name=\"expand\">{title}<ac:rich-text-body>{body}</ac:rich-text-body></ac:structured-macro>"
        )
    };
    assert_eq!(
        replace_expand_macros(&wrap("", &wrap("", "x"))),
        "<details><summary></summary><details><summary></summary>x</details></details>"
    );
    let title = "<ac:parameter ac:name=\"title\">T</ac:parameter>";
    assert_eq!(
        replace_expand_macros(&wrap(title, &format!("a{}b{}c", wrap(title, &wrap(title, "1")), wrap(title, "2")))),
        "<details><summary>T</summary>a<details><summary>T</summary><details><summary>T</summary>1</details></details>b<details><summary>T</summary>2</details>c</details>"
    );
}

#[test]
fn expand_macros_without_an_end_stay() {
    let open = r#"<ac:structured-macro ac:name="expand">x"#;
    assert_eq!(replace_expand_macros(open), open);
    assert_eq!(
        replace_expand_macros(r#"a<ac:structured-macro ac:name="expand"/>b"#),
        "a<details><summary></summary></details>b"
    );
    let cut = r#"<ac:structured-macro ac:name="expand"><ac:structured-macro a=" </ac:structured-macro>"#;
    assert_eq!(replace_expand_macros(cut), cut);
    assert_eq!(replace_expand_macros("<p>x</p>"), "<p>x</p>");
}

#[test]
fn jira_pieces() {
    assert_eq!(jira_link_html("K-1", "u&v"), "<a href=\"u&amp;v\">K-1</a>");
    assert_eq!(render_issue("K-1", Some("b")), "<a href=\"b/K-1\">K-1</a>");
    assert_eq!(render_issue("K<", None), "K&lt;");
    assert_eq!(render_issue("", Some("b")), "");
    assert_eq!(
        render_issue_link("h", Some("  ".to_owned()), "<b>K</b>"),
        Some("<a href=\"h\">K</a>".to_owned())
    );
    assert_eq!(render_issue_link("", Some("K".to_owned()), "x"), None);
    assert_eq!(find_jira_browse_base_url("<p></p>"), None);
    let open = r#"<span class="jira-issue" data-jira-key="K">x"#;
    assert_eq!(replace_jira_macros(open), open);
    let empty = r#"<span class="jira-issue">no link</span>"#;
    assert_eq!(replace_jira_macros(empty), empty);
}

#[test]
fn diagrams_are_chosen_by_digest() {
    let digests = vec!["aa".to_owned(), "bb".to_owned(), "bb".to_owned()];
    assert_eq!(choose_diagram(&digests, None), Some(0));
    assert_eq!(choose_diagram(&digests, Some("BB")), Some(1));
    assert_eq!(choose_diagram(&digests, Some("cc")), None);
    assert_eq!(choose_diagram(&Vec::new(), None), None);
}
