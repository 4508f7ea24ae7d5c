//! Documents, headings, URLs and settings.

use confluence2md::export_html::{
    convert_to_md, post_process, preprocess_nested_tables_always, substitute, Substitution,
    promote_markdown_compatible_tables_to_thead, ConvertOptions, TableConversion,
};
use confluence2md::headings::{
    find_id, markdown_heading_slug, rewrite_internal_heading_links, slug_from_lowered,
    unique_markdown_heading_slug,
};
use confluence2md::logger::{parse_log_level, LogLevel};
use confluence2md::lookup::CountMap;
use confluence2md::page::{
    base_url_of, build_document, output_file_name, parse_table_conversion, prepare_html,
    resolve_link, resolve_links, setting, title_of,
};
use confluence2md::percent::percent_encode;
use confluence2md::utils::{normalize_base_url, resolve_url};
use confluence2md::web::{choose_resolution, UrlParts};

#[test]
fn documents_are_put_together() {
    assert_eq!(
        build_document("T", "7", Some("https://x/7"), "body\n"),
        "# T\n\n- Confluence Page ID: 7\n- URL: https://x/7\n- HTML source used for conversion: body.export_view\n\n---\n\nbody\n\n"
    );
    assert_eq!(
        build_document("T", "7", None, "b"),
        "# T\n\n- Confluence Page ID: 7\n- HTML source used for conversion: body.export_view\n\n---\n\nb\n"
    );
    assert_eq!(title_of("", "7"), "page-7");
    assert_eq!(title_of("A", "7"), "A");
    assert_eq!(output_file_name("My Page"), "My_Page.md");
}

#[test]
fn options_go_before_variables() {
    assert_eq!(setting(Some("a".to_owned()), Some("b".to_owned())), Some("a".to_owned()));
    assert_eq!(setting(None, Some("b".to_owned())), Some("b".to_owned()));
    assert_eq!(setting::<String>(None, None), None);
}

#[test]
fn table_modes() {
    assert_eq!(parse_table_conversion(None).unwrap(), TableConversion::Default);
    assert_eq!(parse_table_conversion(Some("default")).unwrap(), TableConversion::Default);
    assert_eq!(parse_table_conversion(Some("always")).unwrap(), TableConversion::Always);
    assert_eq!(
        parse_table_conversion(Some("Always")).unwrap_err().message(),
        "Invalid --table-conversion value: \"Always\". Must be \"default\" or \"always\"."
    );
}

#[test]
fn base_urls() {
    assert_eq!(base_url_of("https://example.com:8443/a?b").unwrap(), "https://example.com:8443");
    assert_eq!(base_url_of("https://example.com:443/a").unwrap(), "https://example.com");
    assert!(base_url_of("x").is_err());
    let once = normalize_base_url("http://a//");
    assert_eq!(normalize_base_url(&once), once);
}

#[test]
fn urls_keep_the_context_path() {
    let base = "http://localhost:8080/confluence";
    assert_eq!(resolve_url("/confluence/x", base), "http://localhost:8080/confluence/x");
    assert_eq!(resolve_url("/confluencex", base), "http://localhost:8080/confluence/confluencex");
    assert_eq!(resolve_url("a/b", base), "http://localhost:8080/confluence/a/b");
    assert_eq!(resolve_url("a/b", "no base"), "a/b");
    assert_eq!(resolve_url("/a", "https://h"), "https://h/a");
}

#[test]
fn slugs() {
    assert_eq!(markdown_heading_slug("  Hello, World_1-2!  "), "hello-world_1-2");
    assert_eq!(markdown_heading_slug("Ä ß"), "ä-ß");
    assert_eq!(markdown_heading_slug("!?"), "section");
    assert_eq!(slug_from_lowered("a b"), "a-b");
    assert_eq!(find_id(" class=x id='a&amp;b'"), Some("a&b".to_owned()));
    assert_eq!(find_id(" class=x"), None);
}

#[test]
fn heading_links() {
    let html = "<h1 id=\"x\">One <b>Two</b></h1><a class='c' href='#x'>l</a><a href=\"#y\">m</a>";
    assert_eq!(
        rewrite_internal_heading_links(html),
        "<h1 id=\"x\">One <b>Two</b></h1><a class='c' href='#one-two'>l</a><a href=\"#y\">m</a>"
    );
    let plain = "<a href=\"#y\">m</a>";
    assert_eq!(rewrite_internal_heading_links(plain), plain);
}

#[test]
fn markdown_is_cleaned_up() {
    assert_eq!(post_process("\n\na\n\n\n\nb\n\nc \n"), "a\n\nb\n\nc\n");
    assert_eq!(post_process("- \\[x\\] a\n- \\[ \\] b"), "- [x] a\n- [ ] b\n");
    assert_eq!(post_process(""), "\n");
}

#[test]
fn nested_tables_follow_their_page_order() {
    let nested = |a: &str, b: &str| {
        format!("<table><tr><td>{a}</td><td><table><tr><td>{b}</td><td>x</td></tr></table></td></tr></table>")
    };
    let html = format!("<p>p</p>{}<p>q</p>{}", nested("A", "B"), nested("C", "D"));
    let md = convert_to_md(&html, ConvertOptions { table_conversion: TableConversion::Always });
    let at = |s: &str| md.find(s).unwrap_or_else(|| panic!("{s} in {md}"));
    assert!(at("| A") < at("\n(*1)\n") && at("\n(*1)\n") < at("| B"), "{md}");
    assert!(at("| B") < at("q") && at("q") < at("| C"), "{md}");
    assert!(at("| C") < at("\n(*2)\n") && at("\n(*2)\n") < at("| D"), "{md}");
    assert!(!md.contains("C2MDNESTED"), "{md}");
    assert!(md.ends_with('\n') && !md.contains("\n\n\n"), "{md}");
}

#[test]
fn preparation_works_tasks_and_macros_in() {
    let storage = "<ac:task><ac:task-id>1</ac:task-id><ac:task-status>complete</ac:task-status></ac:task>";
    let html = r#"<li data-inline-task-id="1">a</li>"#;
    let with = prepare_html(html, Some(storage), "https://h");
    assert!(with.contains(">[x] a</li>"), "{with}");
    let without = prepare_html(html, None, "https://h");
    assert!(without.contains(">[ ] a</li>"), "{without}");
    assert_eq!(prepare_html("<p>plain</p>", None, "https://h"), "<p>plain</p>");
}

#[test]
fn percent_encoding_reads_back() {
    for t in ["a b", "ä/ö", "100%", "日本", ""] {
        let coded = percent_encode(t, "-_.~");
        assert!(coded.bytes().all(|b| b.is_ascii_alphanumeric() || b"-_.~%".contains(&b)));
        let back = percent_encoding::percent_decode_str(&coded).decode_utf8().unwrap();
        assert_eq!(back, t);
    }
    assert_eq!(percent_encode("\u{1f}\u{ff}", ""), "%1F%C3%BF");
}

#[test]
fn level_names_read_back() {
    for level in LogLevel::VARIANTS {
        assert_eq!(parse_log_level(level.as_str()).unwrap(), level);
        assert_eq!(parse_log_level(&level.as_str().to_lowercase()).unwrap(), level);
    }
    assert_eq!(
        parse_log_level("loud").unwrap_err().message(),
        "Invalid log level \"loud\". Must be one of: DEBUG, INFO, WARNING, ERROR."
    );
}

#[test]
fn resolutions_in_order_of_preference() {
    let url = |path: &str| UrlParts {
        text: format!("s://h{path}"),
        scheme: "s".to_owned(),
        host: Some("h".to_owned()),
        port: Some(8),
        path: path.to_owned(),
        query: Vec::new(),
    };
    let joined = || Some("J".to_owned());
    let rel = || "x".to_owned();
    assert_eq!(choose_resolution(rel(), Some(url("/a")), Some(url("/b")), joined()), "s://h/a");
    assert_eq!(choose_resolution(rel(), None, None, joined()), "x");
    assert_eq!(choose_resolution(rel(), None, Some(url("/b")), joined()), "J");
    assert_eq!(choose_resolution(rel(), None, Some(url("/b")), None), "x");
    assert_eq!(choose_resolution("/x".to_owned(), None, Some(url("/b/")), joined()), "s://h:8/b/x");
    assert_eq!(choose_resolution("/b/x".to_owned(), None, Some(url("/b")), None), "s://h:8/b/x");
    assert_eq!(url("/a/b%20").last_segment(), Some("b%20".to_owned()));
    assert_eq!(url("a").last_segment(), None);
}

#[test]
fn repeated_headings_get_numbers() {
    let html = "<h1 id='a'>X</h1><h2 id='b'>X</h2><h3 id='c'>X</h3><a href=\"#c\">l</a>";
    assert!(rewrite_internal_heading_links(html).ends_with("<a href=\"#x-2\">l</a>"));
}

#[test]
fn pages_without_tables_are_not_prepared() {
    let html = "<p>a</p><table>open";
    assert_eq!(promote_markdown_compatible_tables_to_thead(html), html);
    let (flat, blocks) = preprocess_nested_tables_always(html);
    assert_eq!(flat, html);
    assert!(blocks.is_empty());
}

#[test]
fn decoding_undoes_escaping() {
    use_decoding("a < b & c > \"d\" 'e' &amp; &x;");
    use_decoding("");
    assert_ne!(
        confluence2md::utils::decode_html_attribute(&confluence2md::utils::escape_html("&lt;")),
        "&lt;"
    );
}

fn use_decoding(t: &str) {
    let coded = confluence2md::utils::escape_html(t);
    assert_eq!(confluence2md::utils::decode_html_attribute(&coded), t);
}

#[test]
fn slugs_of_a_page_differ() {
    let mut counts = CountMap::new();
    let slugs: Vec<String> = ["A", "A", "A-1", "A", "A-1"]
        .iter()
        .map(|t| unique_markdown_heading_slug(t, &mut counts))
        .collect();
    assert_eq!(slugs, vec!["a", "a-1", "a-1-1", "a-2", "a-1-2"]);
    assert_eq!(counts.get("a"), Some(3));
    assert_eq!(counts.get("a-1"), Some(3));
    assert_eq!(counts.get("b"), None);
}

#[test]
fn relative_links_are_resolved() {
    let html = r##"<a class="c" href="/x?a=1&amp;b=2">1</a><a href='y'>2</a><a href="#h">3</a><a href="https://e.com">4</a><a href="//e.com/z">5</a><a href="mailto:a@b">6</a><a name="n">7</a>"##;
    assert_eq!(
        resolve_links(html, "https://h"),
        r##"<a class="c" href="https://h/x?a=1&amp;b=2">1</a><a href="https://h/y">2</a><a href="#h">3</a><a href="https://e.com">4</a><a href="//e.com/z">5</a><a href="mailto:a@b">6</a><a name="n">7</a>"##
    );
    assert_eq!(
        resolve_links(r#"<a data-x-href="https://e.com" href="/y">1</a>"#, "https://h"),
        r#"<a data-x-href="https://e.com" href="https://h/y">1</a>"#
    );
    assert_eq!(
        resolve_links(r#"<a data-href="/z" title="t">1</a>"#, "https://h"),
        r#"<a data-href="/z" title="t">1</a>"#
    );
    assert_eq!(resolve_link("o".to_owned(), "b", "\"", "/x", "'", "https://h"), "o");
    assert_eq!(resolve_link("o".to_owned(), "b", "'", "", "'", "https://h"), "o");
}

#[test]
fn tokens_are_replaced_once() {
    let sub = |n: usize, text: &str| Substitution {
        token: format!("C2MDNESTEDTABLEBLOCK{n}E"),
        text: text.to_owned(),
    };
    let subs = vec![sub(1, "C2MDNESTEDTABLEBLOCK10E"), sub(10, "ten")];
    assert_eq!(
        substitute("a C2MDNESTEDTABLEBLOCK10E b C2MDNESTEDTABLEBLOCK1E c", &subs),
        "a ten b C2MDNESTEDTABLEBLOCK10E c"
    );
    assert_eq!(substitute("plain", &subs), "plain");
}

#[test]
fn many_nested_tables_stand_in_their_places() {
    let html: String = (1..=12)
        .map(|k| {
            format!("<p><table><tr><td>T{k}E</td><td><table><tr><td>p</td><td>q</td></tr></table></td></tr></table></p>")
        })
        .collect();
    let md = convert_to_md(&html, ConvertOptions { table_conversion: TableConversion::Always });
    let mut last = 0;
    for k in 1..=12 {
        let word = format!("T{k}E");
        assert_eq!(md.matches(&word).count(), 1, "{md}");
        let at = md.find(&word).unwrap();
        assert!(at >= last, "{md}");
        last = at;
    }
    assert!(!md.starts_with(char::is_whitespace));
    assert!(md.ends_with('\n') && !md.ends_with("\n\n"));
}
