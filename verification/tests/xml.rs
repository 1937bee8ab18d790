use rs_face::xml::{children_of, find_element, find_element_in_children, find_node_by_names, get_text, parse_xml, XmlError, XmlNode};

const DOC: &str = "<?xml version=\"1.0\"?>\n<!-- cascade -->\n<opencv_storage>\n  <cascade type_id='x'>\n    <stageNum>2</stageNum>\n    <stages><_><maxWeakCount> 3 </maxWeakCount></_></stages>\n  </cascade>\n</opencv_storage>\n";

fn name_of(n: &XmlNode) -> &str {
    match n {
        XmlNode::Element { name, .. } => name.as_str(),
        XmlNode::Text(_) => "",
    }
}

#[test]
fn parses_nested_elements() {
    let root = parse_xml(DOC).unwrap();
    assert_eq!(name_of(&root), "##ROOT##");
    let top = children_of(&root);
    assert_eq!(top.len(), 1);
    assert_eq!(name_of(&top[0]), "opencv_storage");
    let cascade = find_element(&root, "cascade").unwrap();
    match cascade {
        XmlNode::Element { attrs, .. } => {
            assert_eq!(attrs.len(), 1);
            assert_eq!(attrs[0].0, "type_id");
            assert_eq!(attrs[0].1, "x");
        }
        _ => panic!("not an element"),
    }
    let n = find_element(&root, "stageNum").unwrap();
    assert_eq!(get_text(n), "2");
    let w = find_element_in_children(cascade, "maxWeakCount").unwrap();
    assert_eq!(get_text(w), "3 ");
    assert!(find_element(&root, "missing").is_none());
}

#[test]
fn names_lookup() {
    let root = parse_xml("<a/><b>t</b><c/>").unwrap();
    let kids = children_of(&root);
    assert_eq!(kids.len(), 1);
    let inner = children_of(&kids[0]);
    let found = find_node_by_names(inner, &["z", "b"]).unwrap();
    assert_eq!(name_of(found), "b");
}

#[test]
fn unfinished_close_tag() {
    assert!(matches!(parse_xml("<a>x</  "), Err(XmlError::UnfinishedCloseTag)));
}

#[test]
fn unclosed_elements_are_closed_at_the_end() {
    let root = parse_xml("<a><b>hi").unwrap();
    let a = &children_of(&root)[0];
    assert_eq!(name_of(a), "a");
    assert_eq!(get_text(a), "hi");
}
