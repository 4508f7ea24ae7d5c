//! Draw.io diagrams.

use confluence2md::drawio::{
    embed_drawio_xml_in_png, extract_drawio_diagram_names, extract_rendered_drawio_sources,
    filter_mxfile_to_aspect_hash, replace_drawio_img_srcs, sha1_hex,
};

fn create_minimal_png() -> Vec<u8> {
    let signature: [u8; 8] = [0x89, 0x50, 0x4e, 0x47, 0x0d, 0x0a, 0x1a, 0x0a];
    let ihdr: [u8; 25] = [
        0x00, 0x00, 0x00, 0x0d, 0x49, 0x48, 0x44, 0x52, 0x00, 0x00, 0x00, 0x01, 0x00, 0x00,
        0x00, 0x01, 0x08, 0x02, 0x00, 0x00, 0x00, 0x90, 0x77, 0x53, 0xde,
    ];
    let idat: [u8; 24] = [
        0x00, 0x00, 0x00, 0x0c, 0x49, 0x44, 0x41, 0x54, 0x08, 0xd7, 0x63, 0xf8, 0xcf, 0xc0,
        0x00, 0x00, 0x00, 0x04, 0x00, 0x01, 0x02, 0x6f, 0x43, 0xb6,
    ];
    let iend: [u8; 12] = [
        0x00, 0x00, 0x00, 0x00, 0x49, 0x45, 0x4e, 0x44, 0xae, 0x42, 0x60, 0x82,
    ];
    let mut out = Vec::new();
    out.extend_from_slice(&signature);
    out.extend_from_slice(&ihdr);
    out.extend_from_slice(&idat);
    out.extend_from_slice(&iend);
    out
}

#[test]
fn embed_drawio_xml_in_png_inserts_mxfile_text_chunk() {
    let png = create_minimal_png();
    let xml = r#"<mxfile><diagram name="test"><mxGraphModel><root><mxCell id="0"/></root></mxGraphModel></diagram></mxfile>"#;
    let result = embed_drawio_xml_in_png(&png, xml).unwrap();
    assert!(result.len() > png.len());
    assert_eq!(&result[..8], &[0x89u8, 0x50, 0x4e, 0x47, 0x0d, 0x0a, 0x1a, 0x0a]);

    // Locate the tEXt chunk.
    let pos = result
        .windows(4)
        .position(|w| w == b"tEXt")
        .expect("tEXt chunk found");
    let len_idx = pos - 4;
    let chunk_len =
        u32::from_be_bytes(result[len_idx..len_idx + 4].try_into().unwrap()) as usize;
    let chunk_data = &result[pos + 4..pos + 4 + chunk_len];
    let null_idx = chunk_data.iter().position(|&b| b == 0).unwrap();
    let keyword = std::str::from_utf8(&chunk_data[..null_idx]).unwrap();
    let text_value = std::str::from_utf8(&chunk_data[null_idx + 1..]).unwrap();
    assert_eq!(keyword, "mxfile");
    assert!(text_value.starts_with("%3Cmxfile"));
    let decoded = percent_encoding::percent_decode_str(text_value)
        .decode_utf8()
        .unwrap();
    assert_eq!(decoded, xml);

    let last_four = &result[result.len() - 8..result.len() - 4];
    assert_eq!(last_four, b"IEND");
}

#[test]
fn embed_drawio_xml_handles_non_ascii_safely() {
    let png = create_minimal_png();
    let xml = "<mxfile><diagram name=\"\u{30da}\u{30fc}\u{30b8}1\"><mxGraphModel><root><mxCell id=\"0\"/></root></mxGraphModel></diagram></mxfile>";
    let result = embed_drawio_xml_in_png(&png, xml).unwrap();
    let pos = result.windows(4).position(|w| w == b"tEXt").unwrap();
    let len_idx = pos - 4;
    let chunk_len =
        u32::from_be_bytes(result[len_idx..len_idx + 4].try_into().unwrap()) as usize;
    let chunk_data = &result[pos + 4..pos + 4 + chunk_len];
    for &b in chunk_data {
        assert!(b <= 0x7f);
    }
    let chunk_str = std::str::from_utf8(chunk_data).unwrap();
    let null_idx = chunk_str.find('\0').unwrap();
    let text_value = &chunk_str[null_idx + 1..];
    assert!(text_value.starts_with("%3Cmxfile"));
    let decoded = percent_encoding::percent_decode_str(text_value)
        .decode_utf8()
        .unwrap();
    assert!(decoded.contains("\u{30da}\u{30fc}\u{30b8}1"));
    assert!(decoded.contains("<mxGraphModel>"));
}

#[test]
fn embed_drawio_xml_preserves_remaining_data() {
    let png = create_minimal_png();
    let xml = "<mxfile>test</mxfile>";
    let result = embed_drawio_xml_in_png(&png, xml).unwrap();
    let ihdr_length = u32::from_be_bytes(png[8..12].try_into().unwrap()) as usize;
    let ihdr_end = 8 + 4 + 4 + ihdr_length + 4;
    assert_eq!(&result[..ihdr_end], &png[..ihdr_end]);

    let text_type = &result[ihdr_end + 4..ihdr_end + 8];
    assert_eq!(text_type, b"tEXt");

    let text_chunk_len =
        u32::from_be_bytes(result[ihdr_end..ihdr_end + 4].try_into().unwrap()) as usize;
    let after_text = ihdr_end + 4 + 4 + text_chunk_len + 4;
    assert_eq!(&result[after_text..], &png[ihdr_end..]);
}

#[test]
fn embed_drawio_xml_rejects_invalid_png() {
    let not_png: [u8; 8] = [0, 1, 2, 3, 4, 5, 6, 7];
    let err = embed_drawio_xml_in_png(&not_png, "<mxfile/>").unwrap_err();
    assert!(err.message().contains("Not a valid PNG"));
}

#[test]
fn replace_drawio_img_srcs_rewrites_drawio_only() {
    let html = r#"<p><img class="drawio-diagram-image" src="assets%2Fdiagram1.png" /></p><p>middle</p><img class="drawio-diagram-image" src="assets%2Fdiagram2.png" />"#;
    let result = replace_drawio_img_srcs(
        html,
        &[
            "assets%2Fdiagram1.drawio.png".to_owned(),
            "assets%2Fdiagram2.drawio.png".to_owned(),
        ],
    );
    assert!(result.contains(r#"src="assets%2Fdiagram1.drawio.png""#));
    assert!(result.contains(r#"src="assets%2Fdiagram2.drawio.png""#));
    assert!(!result.contains(r#"src="assets%2Fdiagram1.png""#));
}

#[test]
fn replace_drawio_img_srcs_leaves_non_drawio_alone() {
    let html = r#"<img src="assets%2Fother.png" /><img class="drawio-diagram-image" src="assets%2Fdrawio.png" />"#;
    let result = replace_drawio_img_srcs(html, &["assets%2Fdrawio.drawio.png".to_owned()]);
    assert!(result.contains(r#"src="assets%2Fother.png""#));
    assert!(result.contains(r#"src="assets%2Fdrawio.drawio.png""#));
}

#[test]
fn replace_drawio_img_srcs_no_paths_unchanged() {
    let html = r#"<img class="drawio-diagram-image" src="assets%2Fdrawio.png" />"#;
    assert_eq!(replace_drawio_img_srcs(html, &[]), html);
}

#[test]
fn extract_drawio_diagram_names_empty_for_no_macros() {
    assert!(extract_drawio_diagram_names(Some("<p>no macros</p>")).is_empty());
    assert!(extract_drawio_diagram_names(None).is_empty());
}

#[test]
fn extract_rendered_drawio_images_derives_cross_page_drawio_source() {
    let html = r#"<p><img class="drawio-diagram-image" src="/download/attachments/1320525625/test.drawio.png?version=1&amp;api=v2" /></p>"#;
    let refs = extract_rendered_drawio_sources(html, "https://confluence.example.com");

    assert_eq!(refs.len(), 1);
    assert_eq!(refs[0].page_id, "1320525625");
    assert_eq!(refs[0].png_title, "test.drawio.png");
    assert_eq!(refs[0].xml_file_name.as_deref(), Some("test.drawio"));
    assert_eq!(refs[0].output_base_name, "test.drawio.png");
}

#[test]
fn sha1_hex_matches_known_vectors() {
    assert_eq!(sha1_hex(b""), "da39a3ee5e6b4b0d3255bfef95601890afd80709");
    assert_eq!(sha1_hex(b"abc"), "a9993e364706816aba3e25717850c26c9cd0d89d");
    assert_eq!(
        sha1_hex(b"dhv8lTtAVSGf6rndoTdm"),
        "90a471c9f6e67592b1a4925f41581bedd9e05408"
    );
    assert_eq!(
        sha1_hex(b"uDV5wrpQSX34VL1bIryd"),
        "8617a86e51e7441130c2329cc97cafe9c7032e90"
    );
}

#[test]
fn filter_mxfile_none_keeps_only_first_and_normalizes_pages() {
    let xml = r#"<mxfile host="x" pages="3"><diagram id="aaa" name="ページ1"><a/></diagram><diagram id="bbb" name="ページ2"><b/></diagram><diagram id="ccc" name="ページ3"><c/></diagram></mxfile>"#;
    let out = filter_mxfile_to_aspect_hash(xml, None).unwrap();
    assert!(out.contains(r#"name="ページ1""#));
    assert!(!out.contains(r#"name="ページ2""#));
    assert!(!out.contains(r#"name="ページ3""#));
    assert!(out.contains(r#"pages="1""#));
    assert!(out.contains("<a/>"));
    assert!(!out.contains("<b/>"));
    assert!(!out.contains("<c/>"));
}

#[test]
fn filter_mxfile_none_returns_none_when_no_diagram() {
    assert!(filter_mxfile_to_aspect_hash("<mxfile></mxfile>", None).is_none());
}

#[test]
fn filter_mxfile_keeps_only_matching_diagram_and_normalizes_pages() {
    let xml = r#"<mxfile host="x" pages="3"><diagram id="dhv8lTtAVSGf6rndoTdm" name="ページ1"><a/></diagram><diagram id="uDV5wrpQSX34VL1bIryd" name="ページ2"><b/></diagram><diagram id="qiFhaAI4dCEqhqX3Nilp" name="ページ3"><c/></diagram></mxfile>"#;
    let out =
        filter_mxfile_to_aspect_hash(xml, Some("8617a86e51e7441130c2329cc97cafe9c7032e90"))
            .unwrap();
    assert!(out.contains(r#"name="ページ2""#));
    assert!(!out.contains(r#"name="ページ1""#));
    assert!(!out.contains(r#"name="ページ3""#));
    assert!(out.contains(r#"pages="1""#));
    assert!(out.contains("<b/>"));
    assert!(!out.contains("<a/>"));
    assert!(!out.contains("<c/>"));
}

#[test]
fn filter_mxfile_returns_none_when_no_match() {
    let xml = r#"<mxfile><diagram id="only" name="x"></diagram></mxfile>"#;
    assert!(filter_mxfile_to_aspect_hash(xml, Some("deadbeef")).is_none());
}
