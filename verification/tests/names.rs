//! File names and asset paths.

use confluence2md::lookup::NameSet;
use confluence2md::names::{
    choose_file_name, file_name_of, get_file_name_from_url_or_headers, make_assets_info,
    name_from_disposition, name_from_url, split_extension, to_markdown_asset_path,
    unique_file_name, HeaderHints,
};
use confluence2md::utils::{escape_html, extract_macro_blocks, extract_macro_param, sanitize_file_name};

fn hints<'a>(cd: Option<&'a str>, ct: Option<&'a str>) -> HeaderHints<'a> {
    HeaderHints { content_disposition: cd, content_type: ct }
}

#[test]
fn file_names_of_paths_agree_with_std() {
    for p in [
        "a/b.txt", "b.tar.gz", ".hidden", "a/.hidden", "a/..", "..", ".", "", "/", "a/", "a/./",
        "a/b/.", "x.", "a.b/c", "./x.y", "...", "..a", "a//b.c//",
    ] {
        let path = std::path::Path::new(p);
        let name = path.file_name().map(|s| s.to_string_lossy().into_owned());
        assert_eq!(file_name_of(p), name, "{p}");
        let (stem, ext) = split_extension(p);
        let expected = path.file_stem().map(|s| s.to_string_lossy().into_owned());
        assert_eq!(stem, expected, "{p}");
        let expected = path.extension().map(|s| s.to_string_lossy().into_owned());
        assert_eq!(ext, expected, "{p}");
    }
}

#[test]
fn used_names_get_numbers() {
    let mut used = NameSet::new();
    assert_eq!(unique_file_name("a.png", &mut used), "a.png");
    assert_eq!(unique_file_name("a.png", &mut used), "a_1.png");
    assert_eq!(unique_file_name("a_2.png", &mut used), "a_2.png");
    assert_eq!(unique_file_name("a.png", &mut used), "a_3.png");
    assert_eq!(unique_file_name("b", &mut used), "b");
    assert_eq!(unique_file_name("b", &mut used), "b_1");
    assert_eq!(used.len(), 6);
    assert!(used.contains("a_3.png"));
    assert!(!used.contains("a_4.png"));
}

#[test]
fn names_from_headers() {
    assert_eq!(
        name_from_disposition("attachment; filename*=UTF-8''a%20b%C3%A4.png; x=1"),
        Some("a bä.png".to_owned())
    );
    assert_eq!(
        name_from_disposition("attachment; filename=\"plain.png\""),
        Some("plain.png".to_owned())
    );
    assert_eq!(name_from_disposition("inline"), None);
}

#[test]
fn names_from_urls() {
    assert_eq!(
        name_from_url("https://example.com/a/b%20c.png?x=1"),
        Some("b c.png".to_owned())
    );
    assert_eq!(name_from_url("https://example.com/"), None);
    assert_eq!(name_from_url("not a url"), None);
}

#[test]
fn extension_comes_from_content_type() {
    assert_eq!(choose_file_name(None, "image_1", Some("image/png; q=1")), "image_1.png");
    assert_eq!(choose_file_name(None, "image.x", Some("image/png")), "image.x");
    assert_eq!(choose_file_name(Some("a/b".to_owned()), "f", None), "a_b");
    assert_eq!(choose_file_name(None, "doc", Some("application/pdf")), "doc");
}

#[test]
fn download_names_in_order_of_preference() {
    let mut used = NameSet::new();
    let name = get_file_name_from_url_or_headers(
        "https://example.com/url.png",
        &hints(Some("attachment; filename=\"head.png\""), None),
        "fallback",
        &mut used,
    );
    assert_eq!(name, "head.png");
    let name = get_file_name_from_url_or_headers(
        "https://example.com/url.png",
        &HeaderHints::default(),
        "fallback",
        &mut used,
    );
    assert_eq!(name, "url.png");
    let name = get_file_name_from_url_or_headers(
        "https://example.com/",
        &hints(None, Some("image/gif")),
        "fallback",
        &mut used,
    );
    assert_eq!(name, "fallback.gif");
    let name = get_file_name_from_url_or_headers(
        "https://example.com/url.png",
        &HeaderHints::default(),
        "fallback",
        &mut used,
    );
    assert_eq!(name, "url_1.png");
}

#[test]
fn assets_stand_beside_the_document() {
    let info = make_assets_info("1", "My Page", "/out/My_Page.md", None);
    assert_eq!(info.assets_dir_name, "My_Page_assets");
    assert_eq!(info.assets_abs_dir, "/out/My_Page_assets");
    assert_eq!(info.markdown_image_prefix, "My_Page_assets");
    let info = make_assets_info("1", "", "/x.md", Some("/cwd"));
    assert_eq!(info.assets_dir_name, "page-1_assets");
    assert_eq!(info.assets_abs_dir, "/page-1_assets");
    for p in [
        "/out/a.md", "/a.md", "a.md", "/out//a.md", "/out/a/", "/", "", "/cwd/./X.md", "./X.md",
        ".", "./", "a/.", "/.", "/..", "a/b/./.", "a/./b/c", "..", "/x/./.",
    ] {
        let dir = std::path::Path::new(p)
            .parent()
            .map(|d| d.to_path_buf())
            .unwrap_or_else(|| std::path::PathBuf::from("."));
        let expected = dir.join("T_assets").to_string_lossy().into_owned();
        assert_eq!(make_assets_info("1", "T", p, None).assets_abs_dir, expected, "{p}");
    }
    let info = make_assets_info("1", "T", "out/a.md", Some("/cwd"));
    assert_eq!(info.assets_abs_dir, "/cwd/out/T_assets");
    let info = make_assets_info("1", "T", "a.md", Some("/cwd/."));
    assert_eq!(info.assets_abs_dir, "/cwd/T_assets");
}

#[test]
fn asset_paths_are_one_component() {
    assert_eq!(to_markdown_asset_path("P_assets", "a b.png"), "P_assets%2Fa%20b.png");
    assert_eq!(to_markdown_asset_path("é", "(1)!~*'.png"), "%C3%A9%2F(1)!~*'.png");
    assert_eq!(to_markdown_asset_path("a\\b", "c"), "a%2Fb%2Fc");
}

#[test]
fn safe_names_are_kept() {
    for name in ["a", "Page_Title.md", "日本語", "a_b-c.d"] {
        assert_eq!(sanitize_file_name(name), name);
    }
    let long = format!("{}_{}", "a".repeat(179), "b");
    assert_eq!(sanitize_file_name(&long), format!("{}_", "a".repeat(179)));
}

#[test]
fn escaped_text_is_safe() {
    assert_eq!(escape_html("a<b>&\"c\"'"), "a&lt;b&gt;&amp;&quot;c&quot;'");
    assert_eq!(escape_html("plain"), "plain");
}

#[test]
fn macro_names_are_matched_as_they_stand() {
    let html = r#"<ac:structured-macro ac:name="a.b">1</ac:structured-macro><ac:structured-macro ac:name="axb">2</ac:structured-macro>"#;
    assert_eq!(
        extract_macro_blocks(html, "a.b"),
        vec![r#"<ac:structured-macro ac:name="a.b">1</ac:structured-macro>"#]
    );
    assert!(extract_macro_blocks(html, "a+b").is_empty());
    let block = r#"<ac:parameter ac:name="k">x &amp; <b>y</b> </ac:parameter>"#;
    assert_eq!(extract_macro_param(block, "k"), Some("x & y".to_owned()));
    assert_eq!(extract_macro_param(block, "l"), None);
}
