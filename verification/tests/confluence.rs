//! Requests and answers.

use confluence2md::confluence::{
    attachment_download_url, attachments_url, bearer, build_attachment_maps, checked_answer,
    checked_download, choose_lookup, encode_path_segment, image_sources, is_local_markdown_asset, localize_image,
    page_url, parse_json_text, parse_page, place_download, plan_attachment, plan_image,
    read_attachments, read_search, required_env, resolve_page_lookup, rewrite_image_sources,
    search_url, Attachment, ConfluenceError, DownloadAttachmentOptions, DownloadBinaryOptions,
    DownloadImagesOptions, PageLookup,
};
use confluence2md::lookup::{NameSet, TextMap};
use confluence2md::names::HeaderHints;

const BASE: &str = "https://confluence.example.com";

fn attachment(title: &str, path: Option<&str>) -> Attachment {
    Attachment {
        id: "1".to_owned(),
        title: title.to_owned(),
        media_type: None,
        download_path: path.map(|p| p.to_owned()),
        webui_path: None,
    }
}

fn lookup(url: &str) -> PageLookup {
    resolve_page_lookup(url).unwrap()
}

#[test]
fn page_is_found_by_query_parameter() {
    for url in [
        "https://confluence.example.com/pages/viewpage.action?pageId=1082335934&spaceKey=DEMO",
        "https://confluence.example.com/pages/viewpage.action?pageId=1082335934&spaceKey=DEMO&title=foo",
    ] {
        assert!(matches!(lookup(url), PageLookup::Id(id) if id == "1082335934"));
    }
}

#[test]
fn page_is_found_by_spaces_path() {
    assert!(matches!(
        lookup("https://confluence.example.com/wiki/spaces/DEMO/pages/9876543/My+Page"),
        PageLookup::Id(id) if id == "9876543"
    ));
    assert!(matches!(
        lookup("https://confluence.example.com/wiki/spaces/DEMO/pages/1111111"),
        PageLookup::Id(id) if id == "1111111"
    ));
}

#[test]
fn page_is_searched_by_space_and_title() {
    assert!(matches!(
        lookup("https://confluence.example.com/pages/viewpage.action?spaceKey=DEMO&title=My+Page"),
        PageLookup::Search { space, title } if space == "DEMO" && title == "My Page"
    ));
    assert!(matches!(
        lookup("https://confluence.example.com/display/DEMO/My+Page+Title"),
        PageLookup::Search { space, title } if space == "DEMO" && title == "My Page Title"
    ));
    assert!(matches!(
        lookup("https://confluence.example.com/display/DEMO/%E3%82%B7%20x"),
        PageLookup::Search { space, title } if space == "DEMO" && title == "シ x"
    ));
}

#[test]
fn unknown_addresses_are_refused() {
    let err = resolve_page_lookup("https://confluence.example.com/unknown/path").unwrap_err();
    assert_eq!(
        err.message(),
        "Cannot determine page ID from URL: https://confluence.example.com/unknown/path"
    );
    let err = resolve_page_lookup("no url").unwrap_err();
    assert!(matches!(err, ConfluenceError::BadUrl));
    assert_eq!(err.message(), "invalid URL");
}

#[test]
fn page_answer_is_read() {
    let body = r#"{"title":"Saved Page","body":{"storage":{"value":"<p>storage</p>"},"export_view":{"value":"<p>export</p>"}},"_links":{"webui":"/pages/123"}}"#;
    let page = parse_page(body, "123", BASE).unwrap();
    assert_eq!(page.title, "Saved Page");
    assert_eq!(page.content_json, body);
    assert_eq!(page.export_html, "<p>export</p>");
    assert_eq!(page.storage_html.as_deref(), Some("<p>storage</p>"));
    assert_eq!(page.webui.as_deref(), Some("https://confluence.example.com/pages/123"));
    let page = parse_page(r#"{"body":{"export_view":{"value":"x"}}}"#, "7", BASE).unwrap();
    assert_eq!(page.title, "page-7");
    assert_eq!(page.storage_html, None);
    assert_eq!(page.webui, None);
}

#[test]
fn bad_page_answers() {
    let err = parse_page(r#"{"id":"1","body":{}}"#, "1", BASE).unwrap_err();
    assert_eq!(err.message(), "export_view body not available. Response keys: body, id");
    let err = parse_page("[1]", "1", BASE).unwrap_err();
    assert_eq!(err.message(), "export_view body not available. Response keys: ");
    let err = parse_page("{", "1", BASE).unwrap_err();
    assert_eq!(err.message(), "Failed to parse JSON response:\n{");
}

#[test]
fn statuses() {
    assert_eq!(checked_answer(200, "OK".to_owned(), "b".to_owned()).unwrap(), "b");
    assert!(checked_answer(299, String::new(), String::new()).is_ok());
    let err = checked_answer(404, "Not Found".to_owned(), "b".to_owned()).unwrap_err();
    assert_eq!(err.message(), "Confluence API error: 404 Not Found\nb");
    assert!(checked_download(204, String::new(), "u").is_ok());
    let err = checked_download(500, "Oops".to_owned(), "u").unwrap_err();
    assert_eq!(err.message(), "Failed to fetch binary: 500 Oops u");
}

#[test]
fn environment() {
    assert_eq!(required_env(Some("t".to_owned())).unwrap().personal_access_token, "t");
    assert_eq!(
        required_env(None).unwrap_err().message(),
        "Missing environment variable: CONFLUENCE2MD_PERSONAL_ACCESS_TOKEN."
    );
    assert_eq!(bearer("t"), "Bearer t");
}

#[test]
fn addresses() {
    assert_eq!(encode_path_segment("a b/ä~"), "a%20b%2F%C3%A4~");
    assert_eq!(
        page_url(BASE, "1 2"),
        "https://confluence.example.com/rest/api/content/1%202?expand=body.storage,body.export_view"
    );
    assert_eq!(
        attachments_url(BASE, "1"),
        "https://confluence.example.com/rest/api/content/1/child/attachment?limit=1000"
    );
    assert_eq!(
        search_url(BASE, "A&B", "x y"),
        "https://confluence.example.com/rest/api/content?spaceKey=A%26B&title=x%20y&type=page"
    );
}

#[test]
fn attachments_are_read() {
    let data = parse_json_text(
        r#"{"results":[
            {"id":"a1","title":"x.png","metadata":{"mediaType":"image/png"},"_links":{"download":"/d","webui":"/w"}},
            {"id":"a2","title":"y","extensions":{"mediaType":"text/plain"},"metadata":null},
            {"id":3,"title":"z"},
            {"title":"no id"},
            ["a3","in an array",{"mediaType":"m"}],
            ["short"],
            "text"
        ]}"#,
    )
    .unwrap();
    let list = read_attachments(&data);
    assert_eq!(list.len(), 3);
    assert_eq!(list[0].media_type.as_deref(), Some("image/png"));
    assert_eq!(list[0].download_path.as_deref(), Some("/d"));
    assert_eq!(list[0].webui_path.as_deref(), Some("/w"));
    assert_eq!(list[1].media_type.as_deref(), Some("text/plain"));
    assert_eq!(list[1].download_path, None);
    assert_eq!((list[2].id.as_str(), list[2].title.as_str()), ("a3", "in an array"));
    assert_eq!(list[2].media_type.as_deref(), Some("m"));
    assert!(read_attachments(&parse_json_text("{}").unwrap()).is_empty());
}

#[test]
fn search_answers() {
    let found = parse_json_text(r#"{"results":[{"id":"555444"},{"id":"2"}]}"#).unwrap();
    assert_eq!(read_search(&found, "S", "T").unwrap(), "555444");
    let none = parse_json_text(r#"{"results":[]}"#).unwrap();
    assert_eq!(
        read_search(&none, "S", "T").unwrap_err().message(),
        "Page not found for spaceKey=\"S\" title=\"T\""
    );
    let odd = parse_json_text(r#"{"results":[{"id":5}]}"#).unwrap();
    assert_eq!(
        read_search(&odd, "S", "T").unwrap_err().message(),
        "Unexpected page id type in response"
    );
}

#[test]
fn attachment_addresses() {
    assert_eq!(
        attachment_download_url(BASE, "1", &attachment("a b.png", None)),
        "https://confluence.example.com/download/attachments/1/a%20b.png"
    );
    assert_eq!(
        attachment_download_url(BASE, "1", &attachment("x", Some("/d/x?a=1&amp;b=2"))),
        "https://confluence.example.com/d/x?a=1&b=2"
    );
}

#[test]
fn last_attachment_with_a_title_wins() {
    let maps = build_attachment_maps(&[
        attachment("a", Some("/1")),
        attachment("b", None),
        attachment("a", Some("/2")),
    ]);
    assert_eq!(maps.by_title.get("a").unwrap().download_path.as_deref(), Some("/2"));
    assert!(maps.by_title.get("b").is_some());
    assert!(maps.by_title.get("c").is_none());
}

#[test]
fn downloads_are_placed() {
    let mut used = NameSet::new();
    for expected in ["x.png", "x_1.png"] {
        let place = place_download(
            DownloadBinaryOptions {
                url: "https://example.com/x.png",
                token: "t",
                assets_abs_dir: "/out",
                markdown_image_prefix: "P",
                fallback_base_name: "f",
                used_names: &mut used,
            },
            &HeaderHints::default(),
        );
        assert_eq!(place.file_name, expected);
        assert_eq!(place.markdown_path, format!("P%2F{expected}"));
    }
    let nameless = attachment("", None);
    let download = plan_attachment(&DownloadAttachmentOptions {
        page_id: "1",
        attachment: &nameless,
        base_url: BASE,
        token: "t",
        assets_abs_dir: "/out",
        markdown_image_prefix: "P",
        used_names: &mut used,
    });
    assert_eq!(download.fallback_base_name, "attachment");
    assert_eq!(download.url, "https://confluence.example.com/download/attachments/1/");
}

#[test]
fn images_are_planned_and_rewritten() {
    let html = r#"<img src="/a.png"><img src='b.png' x><img src="https://s/rest/plantuml/1"><img src="P%2Fc.png">"#;
    let sources = image_sources(html);
    assert_eq!(sources, vec!["/a.png", "b.png", "https://s/rest/plantuml/1", "P%2Fc.png"]);
    let mut used = NameSet::new();
    let opts = DownloadImagesOptions {
        base_url: BASE,
        personal_access_token: "t",
        assets_abs_dir: "/out",
        markdown_image_prefix: "P",
        used_names: &mut used,
    };
    let mut local = TextMap::new();
    let first = plan_image(&sources[0], 0, &local, &opts).unwrap();
    assert_eq!(first.url, "https://confluence.example.com/a.png");
    assert_eq!(first.fallback_base_name, "image_1");
    local.insert("/a.png".to_owned(), "P%2Fa.png".to_owned());
    assert!(plan_image(&sources[0], 0, &local, &opts).is_none());
    assert!(plan_image(&sources[1], 1, &local, &opts).is_some());
    assert!(plan_image(&sources[2], 2, &local, &opts).is_none());
    assert!(plan_image(&sources[3], 3, &local, &opts).is_none());
    assert_eq!(
        rewrite_image_sources(html, &local),
        r#"<img src="P%2Fa.png"><img src='b.png' x><img src="https://s/rest/plantuml/1"><img src="P%2Fc.png">"#
    );
    assert_eq!(localize_image("o".to_owned(), "<img src=", "\"", "/a.png", "'", &local), "o");
    assert!(is_local_markdown_asset("a b/x", "a b"));
    assert!(is_local_markdown_asset("a%20b%2Fx", "a b"));
    assert!(!is_local_markdown_asset("x/a", "a"));
}

#[test]
fn lookups_in_order_of_preference() {
    let t = |s: &str| Some(s.to_owned());
    let display = || Some(("S".to_owned(), "a+b".to_owned()));
    assert!(matches!(
        choose_lookup(t("1"), t("2"), t("s"), t("x"), display()),
        Some(PageLookup::Id(id)) if id == "1"
    ));
    assert!(matches!(
        choose_lookup(None, t("2"), t("s"), t("x"), display()),
        Some(PageLookup::Id(id)) if id == "2"
    ));
    assert!(matches!(
        choose_lookup(None, None, t("s"), t("x+y"), display()),
        Some(PageLookup::Search { space, title }) if space == "s" && title == "x+y"
    ));
    assert!(matches!(
        choose_lookup(None, None, t("s"), None, display()),
        Some(PageLookup::Search { space, title }) if space == "S" && title == "a b"
    ));
    assert!(choose_lookup(None, None, t("s"), None, None).is_none());
}

#[test]
fn images_stay_without_downloads() {
    let html = r#"<p><img src="a.png"><img src='b.png'></p>"#;
    assert_eq!(rewrite_image_sources(html, &TextMap::new()), html);
}
