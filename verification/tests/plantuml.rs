//! PlantUML diagrams.

use confluence2md::plantuml::{extract_plantuml_sources, replace_plantuml_imgs_with_code};

#[test]
fn extract_plantuml_sources_empty_for_no_macros() {
    assert!(extract_plantuml_sources(Some("<p>no macros</p>")).is_empty());
    assert!(extract_plantuml_sources(None).is_empty());
}

#[test]
fn replace_plantuml_imgs_replaces_img_tags() {
    let html = r#"<p>Before</p><img class="confluence-embedded-image" src='https://example.com/rest/plantuml/1.0/abc?type=image%2Fpng' /><p>After</p>"#;
    let sources = vec!["@startuml\nAlice -> Bob\n@enduml".to_owned()];
    let result = replace_plantuml_imgs_with_code(html, &sources);
    assert!(!result.contains("/rest/plantuml/"));
    assert!(result.contains("language-plantuml"));
    assert!(result.contains("@startuml"));
}

#[test]
fn replace_plantuml_imgs_leaves_other_images() {
    let html = r#"<img src="https://example.com/image.png" /><img src='https://example.com/rest/plantuml/1.0/abc' />"#;
    let sources = vec!["@startuml\ntest\n@enduml".to_owned()];
    let result = replace_plantuml_imgs_with_code(html, &sources);
    assert!(result.contains(r#"src="https://example.com/image.png""#));
}

#[test]
fn extract_plantuml_sources_does_not_pick_up_preceding_code_macro() {
    let html = r#"<ac:structured-macro ac:name="code"><ac:plain-text-body><![CDATA[int x = 1;]]></ac:plain-text-body></ac:structured-macro>
<ac:structured-macro ac:name="plantuml"><ac:plain-text-body><![CDATA[@startuml
A -> B
@enduml]]></ac:plain-text-body></ac:structured-macro>"#;
    let sources = extract_plantuml_sources(Some(html));
    assert_eq!(sources.len(), 1);
    assert!(sources[0].contains("@startuml"));
    assert!(!sources[0].contains("int x"));
}
