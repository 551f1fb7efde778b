use epubparse::util::html_to_text;
use epubparse::xml::parse_xml_tree;
use epubparse::xml::XmlNode;
use epubparse::util::get_all_text;

const DOC: &str = "<html><head><title>The Title</title></head><body>\
<p>Before the start.</p>\
<div id=\"start\"><p>Opening sentence of the section.</p><p>Middle text.</p></div>\
<div id=\"end\"><p>Sentence of the next section.</p></div>\
<p>After everything.</p>\
</body></html>";

#[test]
fn html_to_text_no_anchors() {
    let all = html_to_text(DOC, None, None).unwrap();
    assert_eq!(
        "The Title Before the start. Opening sentence of the section. Middle text. Sentence of the next section. After everything.",
        all
    );
}

#[test]
fn html_to_text_with_anchors_simple() {
    let text = html_to_text(DOC, Some("start"), Some("end")).unwrap();
    assert_eq!("Opening sentence of the section. Middle text.", text);
    assert!(text.starts_with("Opening sentence"));
    assert!(!text.contains("Sentence of the next section."));
}

#[test]
fn html_to_text_with_start_anchor_only() {
    let text = html_to_text(DOC, Some("start"), None).unwrap();
    assert_eq!(
        "Opening sentence of the section. Middle text. Sentence of the next section. After everything.",
        text
    );
}

#[test]
fn html_to_text_with_stop_anchor_only() {
    let text = html_to_text(DOC, None, Some("end")).unwrap();
    assert_eq!(
        "The Title Before the start. Opening sentence of the section. Middle text.",
        text
    );
}

#[test]
fn html_to_text_absent_start_anchor_is_empty() {
    let text = html_to_text(DOC, Some("nowhere"), None).unwrap();
    assert_eq!("", text);
}

#[test]
fn html_to_text_malformed_input_fails() {
    assert!(html_to_text("<html><body>unclosed", None, None).is_err());
}

#[test]
fn html_to_text_trims_and_joins_with_single_space() {
    let doc = "<html><body><p>  spaced  </p><p>\n\twrapped\n</p></body></html>";
    let text = html_to_text(doc, None, None).unwrap();
    assert_eq!("spaced wrapped", text);
}

#[test]
fn a_name_attribute_takes_precedence_over_id() {
    let doc = "<html><body>\
<p>head part</p>\
<a name=\"mark\" id=\"other\">anchor text</a>\
<p>tail part</p>\
</body></html>";
    let from_name = html_to_text(doc, Some("mark"), None).unwrap();
    assert_eq!("anchor text tail part", from_name);
    let from_id = html_to_text(doc, Some("other"), None).unwrap();
    assert_eq!("", from_id);
}

#[test]
fn anchor_partition_concatenates() {
    let doc = "<html><body>\
<h1 id=\"a\">Alpha</h1><p>alpha body</p>\
<h1 id=\"b\">Beta</h1><p>beta body</p>\
<h1 id=\"c\">Gamma</h1><p>gamma body</p>\
</body></html>";
    let ab = html_to_text(doc, Some("a"), Some("b")).unwrap();
    let bc = html_to_text(doc, Some("b"), Some("c")).unwrap();
    let ac = html_to_text(doc, Some("a"), Some("c")).unwrap();
    assert_eq!("Alpha alpha body", ab);
    assert_eq!("Beta beta body", bc);
    assert_eq!(format!("{} {}", ab, bc), ac);
}

#[test]
fn get_all_text_simple() {
    let root = parse_xml_tree(DOC).unwrap();
    let all = get_all_text(&XmlNode::Element(root));
    assert!(all.starts_with("The Title Before the start."));
    assert!(all.contains("Opening sentence of the section."));
    assert!(all.ends_with("After everything."));
}

#[test]
fn html_to_text_get_all_text_equal() {
    let root = parse_xml_tree(DOC).unwrap();
    let nested = get_all_text(&XmlNode::Element(root));
    let flat = html_to_text(DOC, None, None).unwrap();
    assert_eq!(nested, flat);
}
