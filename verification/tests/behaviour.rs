use draviavemal_xml_rs::validation::is_valid_xml_name;
use draviavemal_xml_rs::{
    NamespaceDeclaration, SerializeOptions, XmlAttribute, XmlDeserializer, XmlDocument,
    XmlElementContentType, XmlError, XmlEvent, XmlSerializer,
};

fn text_of(bytes: Vec<u8>) -> String {
    String::from_utf8(bytes).unwrap()
}

fn attr(name: &str, value: &str) -> XmlAttribute {
    XmlAttribute::new(name.to_string(), value.to_string())
}

fn parse(xml: &str) -> XmlDocument {
    XmlDeserializer::vec_to_xml_doc_tree(xml.as_bytes().to_vec()).expect("parse failed")
}

// --- names and attributes ---

#[test]
fn valid_names_follow_the_xml_rules() {
    assert!(is_valid_xml_name("root"));
    assert!(is_valid_xml_name("a:b"));
    assert!(is_valid_xml_name("_x-1.y"));
    assert!(is_valid_xml_name("élan"));
    assert!(!is_valid_xml_name(""));
    assert!(!is_valid_xml_name("1abc"));
    assert!(!is_valid_xml_name("a b"));
    assert!(!is_valid_xml_name("a:b:c"));
}

#[test]
fn attribute_name_round_trips_through_its_parts() {
    let a = attr("ns:attr", "v");
    assert_eq!(a.get_name(), "attr");
    assert_eq!(a.get_ns_alias(), Some("ns"));
    assert_eq!(a.get_ns_name(), "ns:attr");
    let b = attr("plain", "v");
    assert_eq!(b.get_ns_alias(), None);
    assert_eq!(b.get_ns_name(), "plain");
}

#[test]
fn added_attribute_is_found_by_its_name() {
    let mut document = XmlDocument::new();
    let root_id = document.create_root_element_mut("root", None).unwrap();
    let element = document.get_element_mut(root_id).unwrap();
    element.add_attribute_mut("k", "v").unwrap();
    assert_eq!(element.get_attribute_value("k"), Some("v"));
    assert!(element.has_attribute("k"));
}

#[test]
fn adding_an_attribute_twice_is_refused() {
    let mut document = XmlDocument::new();
    let root_id = document.create_root_element_mut("root", None).unwrap();
    let element = document.get_element_mut(root_id).unwrap();
    element.add_attribute_mut("k", "v").unwrap();
    assert_eq!(element.add_attribute_mut("k", "w"), Err(XmlError::DuplicateAttribute));
    assert_eq!(element.get_attribute_value("k"), Some("v"));
}

#[test]
fn attribute_with_undeclared_alias_is_refused() {
    let mut document = XmlDocument::new();
    let root_id = document.create_root_element_mut("root", None).unwrap();
    let element = document.get_element_mut(root_id).unwrap();
    assert_eq!(element.add_attribute_mut("zz:k", "v"), Err(XmlError::UndeclaredAttributeAlias));
}

#[test]
fn replaced_attribute_is_found_with_its_new_value() {
    let mut document = XmlDocument::new();
    let root_id = document
        .create_root_element_mut("root", Some(vec![attr("a", "1"), attr("b", "2")]))
        .unwrap();
    let element = document.get_element_mut(root_id).unwrap();
    element.add_replace_attribute_mut("a", "9").unwrap();
    assert_eq!(element.get_attribute_value("a"), Some("9"));
    assert_eq!(element.get_attribute_keys().unwrap(), vec!["a".to_string(), "b".to_string()]);
}

#[test]
fn removed_attribute_is_absent() {
    let mut document = XmlDocument::new();
    let root_id = document
        .create_root_element_mut("root", Some(vec![attr("a", "1"), attr("b", "2")]))
        .unwrap();
    let element = document.get_element_mut(root_id).unwrap();
    element.remove_attribute_mut("a");
    assert!(element.get_attribute("a").is_none());
    assert_eq!(element.get_attribute_value("b"), Some("2"));
}

#[test]
fn clear_attributes_counts_and_empties() {
    let mut document = XmlDocument::new();
    let root_id = document
        .create_root_element_mut("root", Some(vec![attr("a", "1"), attr("b", "2")]))
        .unwrap();
    let element = document.get_element_mut(root_id).unwrap();
    assert_eq!(element.clear_attribute_mut(), Ok(2));
    assert!(element.get_attribute_keys().is_none());
    assert_eq!(element.clear_attribute_mut(), Ok(0));
}

#[test]
fn set_attributes_only_on_an_element_without_them() {
    let mut document = XmlDocument::new();
    let root_id = document.create_root_element_mut("root", None).unwrap();
    let element = document.get_element_mut(root_id).unwrap();
    element.set_attribute_mut(vec![attr("x", "y")]).unwrap();
    assert_eq!(element.get_attribute_value("x"), Some("y"));
    assert_eq!(element.set_attribute_mut(vec![attr("p", "q")]), Err(XmlError::AttributesAlreadySet));
}

// --- element tree ---

#[test]
fn invalid_tag_name_is_refused() {
    let mut document = XmlDocument::new();
    assert_eq!(document.create_root_element_mut("1bad", None), Err(XmlError::InvalidTagName));
    let root_id = document.create_root_element_mut("root", None).unwrap();
    assert_eq!(
        document.append_child_element_mut(root_id, "ok", Some(vec![attr("bad name", "v")])),
        Err(XmlError::InvalidAttributeName)
    );
}

#[test]
fn undeclared_tag_alias_is_refused() {
    let mut document = XmlDocument::new();
    let root_id = document.create_root_element_mut("root", None).unwrap();
    assert_eq!(
        document.append_child_element_mut(root_id, "q:child", None),
        Err(XmlError::UndeclaredTagAlias)
    );
}

#[test]
fn missing_parent_is_reported() {
    let mut document = XmlDocument::new();
    document.create_root_element_mut("root", None).unwrap();
    let result = document.append_child_element_mut(77, "child", None);
    assert!(matches!(result, Err(XmlError::ElementNotFound(77))));
    assert!(matches!(document.get_element(500), Err(XmlError::ElementNotFound(500))));
}

#[test]
fn appended_child_is_the_last_child_and_knows_its_parent() {
    let mut document = XmlDocument::new();
    let root_id = document.create_root_element_mut("root", None).unwrap();
    assert_eq!(root_id, 1);
    let first = document.append_child_element_mut(root_id, "a", None).unwrap();
    let second = document.append_child_element_mut(root_id, "b", None).unwrap();
    assert_eq!((first, second), (2, 3));
    let root = document.get_element(root_id).unwrap();
    assert_eq!(root.get_last_child_element(), Some(second));
    assert_eq!(root.get_first_child_element(), Some(first));
    assert_eq!(root.get_child_element_ids(), Some(vec![first, second]));
    assert_eq!(root.get_child_element_count(), Ok(2));
    assert_eq!(document.get_element(second).unwrap().get_parent_id(), Some(root_id));
}

#[test]
fn first_child_is_the_first_of_all_children() {
    let mut document = XmlDocument::new();
    let root_id = document.create_root_element_mut("root", None).unwrap();
    document.append_child_element_mut(root_id, "x", None).unwrap();
    let b1 = document.append_child_element_mut(root_id, "b", None).unwrap();
    let b2 = document.append_child_element_mut(root_id, "b", None).unwrap();
    let root = document.get_element(root_id).unwrap();
    assert_eq!(root.find_all_child("b"), Some(vec![b1, b2]));
    assert_eq!(root.find_first_child("b"), Some(b1));
    assert_eq!(root.find_first_child("none"), None);
    assert_eq!(root.find_all_child("none"), None);
    assert_eq!(document.find_first_child(root_id, "b"), Ok(Some(b1)));
}

#[test]
fn removed_element_is_gone_from_document_and_parent() {
    let mut document = XmlDocument::new();
    let root_id = document.create_root_element_mut("root", None).unwrap();
    let child = document.append_child_element_mut(root_id, "c", None).unwrap();
    document.remove_element_mut(child).unwrap();
    assert!(document.get_element(child).is_err());
    assert_eq!(document.get_element(root_id).unwrap().get_child_element_ids(), None);
    assert!(matches!(document.remove_element_mut(child), Err(XmlError::ElementNotFound(_))));
}

#[test]
fn removing_an_element_removes_its_descendants() {
    let mut document = XmlDocument::new();
    let root_id = document.create_root_element_mut("root", None).unwrap();
    let branch = document.append_child_element_mut(root_id, "branch", None).unwrap();
    let leaf = document.append_child_element_mut(branch, "leaf", None).unwrap();
    let deep = document.append_child_element_mut(leaf, "deep", None).unwrap();
    let sibling = document.append_child_element_mut(root_id, "sibling", None).unwrap();
    document.remove_element_mut(branch).unwrap();
    assert!(matches!(document.get_element(branch), Err(XmlError::ElementNotFound(_))));
    assert!(matches!(document.get_element(leaf), Err(XmlError::ElementNotFound(_))));
    assert!(matches!(document.get_element(deep), Err(XmlError::ElementNotFound(_))));
    assert!(document.get_element(sibling).is_ok());
    assert_eq!(
        document.get_element(root_id).unwrap().get_child_element_ids(),
        Some(vec![sibling])
    );
}

#[test]
fn clearing_content_removes_the_child_elements() {
    let mut document = XmlDocument::new();
    let root_id = document.create_root_element_mut("root", None).unwrap();
    let child = document.append_child_element_mut(root_id, "child", None).unwrap();
    let grandchild = document.append_child_element_mut(child, "grandchild", None).unwrap();
    document.get_element_mut(root_id).unwrap().add_text_mut("tail").unwrap();
    document.clear_element_content_mut(root_id).unwrap();
    assert!(document.get_element(child).is_err());
    assert!(document.get_element(grandchild).is_err());
    assert!(document.get_element(root_id).is_ok());
    assert_eq!(document.get_element(root_id).unwrap().get_child_element_ids(), None);
    assert!(matches!(
        document.clear_element_content_mut(99),
        Err(XmlError::ElementNotFound(99))
    ));
}

#[test]
fn set_text_replaces_every_text_node() {
    let mut document = XmlDocument::new();
    let root_id = document.create_root_element_mut("root", None).unwrap();
    let element = document.get_element_mut(root_id).unwrap();
    element.add_text_mut("one").unwrap();
    element.add_comments_mut("note").unwrap();
    element.add_text_mut("two").unwrap();
    assert_eq!(element.get_text_content(), "onetwo");
    element.set_text_mut("only").unwrap();
    assert_eq!(element.get_text_content(), "only");
    assert_eq!(element.get_element_text_value(), Ok(Some("only".to_string())));
}

#[test]
fn insert_before_and_after_fall_back_when_the_reference_is_missing() {
    let mut document = XmlDocument::new();
    let root_id = document.create_root_element_mut("root", None).unwrap();
    document.append_child_element_mut(root_id, "m", None).unwrap();
    document
        .insert_child_element_before_first_tag_mut(root_id, "front", "absent", None)
        .unwrap();
    document
        .insert_child_element_after_last_tag_mut(root_id, "back", "absent", None)
        .unwrap();
    let root = document.get_element(root_id).unwrap();
    let mut tags = Vec::new();
    for content in root.get_child_contents().as_ref().unwrap() {
        if let XmlElementContentType::Element((_, tag, _)) = content {
            tags.push(tag.clone());
        }
    }
    assert_eq!(tags, vec!["front".to_string(), "m".to_string(), "back".to_string()]);
}

#[test]
fn clone_is_equal_in_content() {
    let mut document = XmlDocument::new();
    let root_id = document.create_root_element_mut("root", Some(vec![attr("k", "v")])).unwrap();
    document.append_child_element_mut(root_id, "c", None).unwrap();
    let copy = document.clone();
    assert_eq!(
        text_of(XmlSerializer::xml_tree_to_vec(&copy).unwrap()),
        text_of(XmlSerializer::xml_tree_to_vec(&document).unwrap())
    );
    assert_eq!(copy.query_xpath("/root"), Ok(None));
}

// --- namespaces ---

#[test]
fn resolve_alias_declares_and_then_reuses() {
    let decl = NamespaceDeclaration::new("http://u", "u");
    let mut document = XmlDocument::new();
    let root_id = document.create_root_element_mut("root", None).unwrap();
    assert_eq!(document.resolve_alias(root_id, &decl), Ok("u".to_string()));
    assert_eq!(document.resolve_alias_mut(root_id, &decl), Ok("u".to_string()));
    let root = document.get_element(root_id).unwrap();
    assert_eq!(root.get_alias_for_uri("http://u"), Some("u".to_string()));
    assert_eq!(document.resolve_alias_mut(root_id, &decl), Ok("u".to_string()));
}

#[test]
fn a_namespace_declared_on_one_element_stays_there() {
    let decl = NamespaceDeclaration::new("http://x", "x");
    let mut document = XmlDocument::new();
    let root_id = document.create_root_element_mut("root", None).unwrap();
    let left = document.append_child_element_mut(root_id, "left", None).unwrap();
    let right = document.append_child_element_mut(root_id, "right", None).unwrap();
    document
        .get_element_mut(left)
        .unwrap()
        .add_attribute_ns_mut("k", &decl, "v")
        .unwrap();
    let left_element = document.get_element(left).unwrap();
    assert_eq!(left_element.get_alias_for_uri("http://x"), Some("x".to_string()));
    assert_eq!(document.get_element(right).unwrap().get_alias_for_uri("http://x"), None);
    assert_eq!(document.get_element(root_id).unwrap().get_alias_for_uri("http://x"), None);
}

#[test]
fn namespaced_attribute_is_found_by_uri() {
    let decl = NamespaceDeclaration::new("http://u", "u");
    let mut document = XmlDocument::new();
    let root_id = document.create_root_element_mut("root", None).unwrap();
    let element = document.get_element_mut(root_id).unwrap();
    element.add_attribute_ns_mut("k", &decl, "v").unwrap();
    assert_eq!(element.get_attribute_value_ns("k", &decl), Some("v"));
    assert!(element.has_attribute_ns("k", &decl));
    assert_eq!(element.get_attribute_by_uri("http://u", "k").unwrap().get_ns_name(), "u:k");
    element.remove_attribute_ns_mut("k", &decl);
    assert!(!element.has_attribute_ns("k", &decl));
}

// --- serialization ---

#[test]
fn serialization_writes_declaration_comments_and_tree() {
    let mut document = XmlDocument::new();
    document.set_standalone_mut(Some("no".to_string()));
    document.add_prolog_comment_mut(" c ".to_string());
    let root_id = document.create_root_element_mut("r", Some(vec![attr("k", "v")])).unwrap();
    let child = document.append_child_element_mut(root_id, "e", None).unwrap();
    document.get_element_mut(child).unwrap().add_text_mut("t").unwrap();
    document.append_child_element_mut(root_id, "f", None).unwrap();
    let text = text_of(XmlSerializer::xml_tree_to_vec(&document).unwrap());
    assert_eq!(
        text,
        "<?xml version=\"1.0\" encoding=\"UTF-8\" standalone=\"no\"?><!-- c --><r k=\"v\"><e>t</e><f/></r>"
    );
}

#[test]
fn text_is_escaped_when_written() {
    let mut document = XmlDocument::new();
    let root_id = document.create_root_element_mut("r", None).unwrap();
    document.get_element_mut(root_id).unwrap().add_text_mut("a<b>&\"'").unwrap();
    let text = text_of(XmlSerializer::xml_tree_to_vec(&document).unwrap());
    assert!(text.ends_with("<r>a&lt;b&gt;&amp;&quot;&apos;</r>"));
}

#[test]
fn empty_content_list_has_no_end_tag() {
    let mut document = XmlDocument::new();
    let root_id = document.create_root_element_mut("r", None).unwrap();
    let element = document.get_element_mut(root_id).unwrap();
    element.add_text_mut("x").unwrap();
    element.set_text_mut("").unwrap();
    let text = text_of(XmlSerializer::xml_tree_to_vec(&document).unwrap());
    assert!(text.ends_with("<r></r>"));
    document.clear_element_content_mut(root_id).unwrap();
    let text = text_of(XmlSerializer::xml_tree_to_vec(&document).unwrap());
    assert!(text.ends_with("<r/>"));
}

#[test]
fn serializing_without_root_reports_the_missing_element() {
    let document = XmlDocument::new();
    assert_eq!(XmlSerializer::xml_tree_to_vec(&document), Err(XmlError::ElementNotFound(1)));
}

#[test]
fn optimization_hoists_to_the_common_ancestor_and_drops_unused() {
    let xml = r#"<root xmlns:u="http://u" xmlns:v="http://v"><a><u:x/></a><b><u:y/></b></root>"#;
    let document = parse(xml);
    let options = SerializeOptions { optimize_namespaces: true };
    let text = text_of(XmlSerializer::xml_tree_to_vec_with(&document, &options).unwrap());
    assert!(text.contains("<root xmlns:u=\"http://u\"><a><u:x/></a><b><u:y/></b></root>"));
    assert!(!text.contains("http://v"));
}

#[test]
fn optimization_follows_markup_compatibility_tokens() {
    let xml = r#"<root xmlns:mc="http://schemas.openxmlformats.org/markup-compatibility/2006" xmlns:p="http://p" xmlns:q="http://q" xmlns:z="http://z"><a mc:Ignorable="p  q"/></root>"#;
    let document = parse(xml);
    let options = SerializeOptions { optimize_namespaces: true };
    let text = text_of(XmlSerializer::xml_tree_to_vec_with(&document, &options).unwrap());
    assert!(text.contains(
        "<a xmlns:mc=\"http://schemas.openxmlformats.org/markup-compatibility/2006\" xmlns:p=\"http://p\" xmlns:q=\"http://q\" mc:Ignorable=\"p  q\"/>"
    ));
    assert!(!text.contains("http://z"));
}

#[test]
fn optimization_declares_at_each_use_when_two_bindings_of_an_alias_clash() {
    let xml = r#"<root xmlns:a="http://one"><a:z1/><a:z2/><x xmlns:a="http://two"><a:p/></x><w xmlns:a="http://two"><a:s/></w></root>"#;
    let document = parse(xml);
    let options = SerializeOptions { optimize_namespaces: true };
    let text = text_of(XmlSerializer::xml_tree_to_vec_with(&document, &options).unwrap());
    assert!(text.contains(
        "<root><a:z1 xmlns:a=\"http://one\"/><a:z2 xmlns:a=\"http://one\"/><x><a:p xmlns:a=\"http://two\"/></x><w><a:s xmlns:a=\"http://two\"/></w></root>"
    ));
}

#[test]
fn optimization_hoists_bindings_of_one_alias_in_separate_subtrees() {
    let xml = r#"<root><x><a:p xmlns:a="http://one"/><a:q xmlns:a="http://one"/></x><y><a:s xmlns:a="http://two"/><a:t xmlns:a="http://two"/></y></root>"#;
    let document = parse(xml);
    let options = SerializeOptions { optimize_namespaces: true };
    let text = text_of(XmlSerializer::xml_tree_to_vec_with(&document, &options).unwrap());
    assert!(text.contains(
        "<root><x xmlns:a=\"http://one\"><a:p/><a:q/></x><y xmlns:a=\"http://two\"><a:s/><a:t/></y></root>"
    ));
}

// --- deserialization ---

#[test]
fn events_build_the_document_in_order() {
    let events = vec![
        XmlEvent::Decl("1.0".to_string(), "utf-8".to_string(), Some("yes".to_string())),
        XmlEvent::Comment("before".to_string()),
        XmlEvent::Start("r".to_string(), vec![attr("k", "v")]),
        XmlEvent::Text("hi".to_string()),
        XmlEvent::Empty("e".to_string(), vec![]),
        XmlEvent::Comment("inside".to_string()),
        XmlEvent::End("r".to_string()),
    ];
    let document = XmlDeserializer::events_to_xml_doc_tree(events).unwrap();
    assert_eq!(document.get_standalone(), Some("yes"));
    assert_eq!(document.get_encoding(), "utf-8");
    assert_eq!(document.get_prolog_comments(), &["before".to_string()]);
    let root = document.get_element(1).unwrap();
    assert_eq!(root.get_attribute_value("k"), Some("v"));
    assert_eq!(root.get_text_content(), "hi");
    assert_eq!(root.get_child_element_ids(), Some(vec![2]));
    assert_eq!(root.get_child_contents().as_ref().unwrap().len(), 3);
}

#[test]
fn end_tag_must_name_the_open_element() {
    let events = vec![
        XmlEvent::Start("r".to_string(), vec![]),
        XmlEvent::Start("a".to_string(), vec![]),
        XmlEvent::End("r".to_string()),
    ];
    let result = XmlDeserializer::events_to_xml_doc_tree(events);
    assert!(matches!(result, Err(XmlError::EndTagMismatch(open, close)) if open == "a" && close == "r"));
}

#[test]
fn text_before_the_root_has_no_element_to_go_to() {
    let events = vec![XmlEvent::Text("stray".to_string()), XmlEvent::Start("r".to_string(), vec![])];
    let result = XmlDeserializer::events_to_xml_doc_tree(events);
    assert!(matches!(result, Err(XmlError::ElementNotFound(0))));
}

#[test]
fn start_then_end_returns_to_the_parent() {
    let events = vec![
        XmlEvent::Start("r".to_string(), vec![]),
        XmlEvent::Start("a".to_string(), vec![]),
        XmlEvent::End("a".to_string()),
        XmlEvent::Text("after".to_string()),
        XmlEvent::End("r".to_string()),
    ];
    let document = XmlDeserializer::events_to_xml_doc_tree(events).unwrap();
    assert_eq!(document.get_element(1).unwrap().get_text_content(), "after");
    assert_eq!(document.get_element(2).unwrap().get_text_content(), "");
}

#[test]
fn reader_errors_are_reported() {
    let result = XmlDeserializer::vec_to_xml_doc_tree(b"<a><b></a>".to_vec());
    assert!(matches!(result, Err(XmlError::Reader(_)) | Err(XmlError::EndTagMismatch(_, _))));
}

#[test]
fn parsed_text_is_unescaped_and_trimmed() {
    let document = parse("<r>  a &amp; b  </r>");
    assert_eq!(document.get_element(1).unwrap().get_text_content(), "a & b");
}

#[test]
fn declaration_without_encoding_defaults_to_utf8() {
    let document = parse(r#"<?xml version="1.1"?><r/>"#);
    assert_eq!(document.get_version(), "1.1");
    assert_eq!(document.get_encoding(), "utf-8");
    assert_eq!(document.get_standalone(), None);
}

#[test]
fn attribute_values_are_kept_as_written() {
    let xml = r#"<r k="a&amp;b&lt;c" v="AT&T"/>"#;
    let document = parse(xml);
    let root = document.get_element(1).unwrap();
    assert_eq!(root.get_attribute_value("k"), Some("a&amp;b&lt;c"));
    assert_eq!(root.get_attribute_value("v"), Some("AT&T"));
    let text = text_of(XmlSerializer::xml_tree_to_vec(&document).unwrap());
    assert!(text.ends_with(xml));
}

#[test]
fn names_and_values_are_decoded_as_utf8() {
    let document = parse("<é k=\"ü\">ç</é>");
    let root = document.get_element(1).unwrap();
    assert_eq!(root.get_tag(), "é");
    assert_eq!(root.get_attribute_value("k"), Some("ü"));
    assert_eq!(root.get_text_content(), "ç");
}

// --- events and their text ---

#[test]
fn serialized_text_is_the_text_of_the_documents_events() {
    let events = vec![
        XmlEvent::Decl("1.0".to_string(), "UTF-8".to_string(), None),
        XmlEvent::Comment("c".to_string()),
        XmlEvent::Start("r".to_string(), vec![attr("x", "1"), attr("xmlns:a", "http://a")]),
        XmlEvent::Text("a<b".to_string()),
        XmlEvent::Empty("a:e".to_string(), vec![]),
        XmlEvent::Start("k".to_string(), vec![]),
        XmlEvent::End("k".to_string()),
        XmlEvent::End("r".to_string()),
    ];
    let document = XmlDeserializer::events_to_xml_doc_tree(events).unwrap();
    let text = text_of(XmlSerializer::xml_tree_to_vec(&document).unwrap());
    assert_eq!(
        text,
        "<?xml version=\"1.0\" encoding=\"UTF-8\"?><!--c--><r xmlns:a=\"http://a\" x=\"1\">a&lt;b<a:e/><k/></r>"
    );
}

#[test]
fn rereading_the_serialized_text_gives_the_same_text() {
    let events = vec![
        XmlEvent::Start("r".to_string(), vec![attr("xmlns:p", "http://p"), attr("id", "7")]),
        XmlEvent::Start("p:c".to_string(), vec![attr("p:k", "v")]),
        XmlEvent::Text("one & two".to_string()),
        XmlEvent::End("p:c".to_string()),
        XmlEvent::Comment("note".to_string()),
        XmlEvent::End("r".to_string()),
    ];
    let document = XmlDeserializer::events_to_xml_doc_tree(events).unwrap();
    let first = XmlSerializer::xml_tree_to_vec(&document).unwrap();
    let again = XmlDeserializer::vec_to_xml_doc_tree(first.clone()).unwrap();
    let second = XmlSerializer::xml_tree_to_vec(&again).unwrap();
    assert_eq!(text_of(first), text_of(second));
    let root_id = again.get_root_id();
    let root = again.get_element(root_id).unwrap();
    assert_eq!(root.get_attribute("id").map(|a| a.get_value()), Some("7"));
    let child = again.get_element(root_id + 1).unwrap();
    assert_eq!(child.get_tag_ns(), "p:c");
    assert_eq!(child.get_text_content(), "one & two");
}

#[test]
fn cdata_and_processing_instructions_are_skipped() {
    let document = parse("<r><?pi data?><![CDATA[raw]]>text</r>");
    let root = document.get_element(document.get_root_id()).unwrap();
    assert_eq!(root.get_text_content(), "text");
    assert_eq!(root.get_child_contents().as_ref().map(|c| c.len()), Some(1));
}

#[test]
fn the_first_match_by_attribute_is_the_first_of_all_matches() {
    let document = parse(r#"<r><a k="x"/><b k="y"/><c k="y"/><d k="y"/></r>"#);
    let root_id = document.get_root_id();
    let all = document.find_all_by_attribute(root_id, "k", "y").unwrap().unwrap();
    assert_eq!(all.len(), 3);
    assert_eq!(document.find_first_by_attribute(root_id, "k", "y").unwrap(), Some(all[0]));
    assert_eq!(document.find_all_by_attribute(root_id, "k", "z").unwrap(), None);
    assert_eq!(document.find_first_by_attribute(root_id, "k", "z").unwrap(), None);
}

// --- failures leave no trace ---

#[test]
fn a_failed_root_creation_leaves_no_trace() {
    let mut document = XmlDocument::new();
    assert!(document.create_root_element_mut("1bad", None).is_err());
    let id = document.create_root_element_mut("root", None).unwrap();
    assert_eq!(id, document.get_root_id());
    assert_eq!(document.get_element(document.get_root_id()).unwrap().get_tag(), "root");
}

#[test]
fn a_rejected_attribute_leaves_the_element_unchanged() {
    let mut document = XmlDocument::new();
    let root_id = document.create_root_element_mut("root", None).unwrap();
    let element = document.get_element_mut(root_id).unwrap();
    assert!(element.add_attribute_mut("zz:a", "v").is_err());
    assert_eq!(element.get_attribute_keys(), None);
    assert!(element.set_attribute_mut(vec![attr("x", "y")]).is_ok());
}

#[test]
fn an_element_without_contents_has_no_text_value() {
    let mut document = XmlDocument::new();
    let root_id = document.create_root_element_mut("root", None).unwrap();
    let empty = document.append_child_element_mut(root_id, "empty", None).unwrap();
    assert_eq!(document.get_element(empty).unwrap().get_element_text_value(), Ok(None));
}

#[test]
fn an_emptied_element_and_its_values_read_back() {
    let mut document = XmlDocument::new();
    let root_id = document.create_root_element_mut("root", Some(vec![attr("q", "a&amp;<b>&c")])).unwrap();
    let child = document.append_child_element_mut(root_id, "c", None).unwrap();
    document.remove_element_mut(child).unwrap();
    let text = text_of(XmlSerializer::xml_tree_to_vec(&document).unwrap());
    assert!(text.ends_with("<root q=\"a&amp;<b>&c\"></root>"));
    let again = XmlDeserializer::vec_to_xml_doc_tree(text.into_bytes()).unwrap();
    let root = again.get_element(again.get_root_id()).unwrap();
    assert_eq!(root.get_tag(), "root");
    assert_eq!(root.get_attribute("q").map(|a| a.get_value()), Some("a&amp;<b>&c"));
    assert_eq!(root.get_child_element_ids(), None);
}

#[test]
fn optimization_keeps_every_use_on_its_own_uri() {
    let xml = r#"<r xmlns:a="http://u1"><y xmlns:a="http://u2" a:k="1"><a:x xmlns:a="http://u1"/></y><a:z/></r>"#;
    let document = parse(xml);
    let options = SerializeOptions { optimize_namespaces: true };
    let text = text_of(XmlSerializer::xml_tree_to_vec_with(&document, &options).unwrap());
    let again = XmlDeserializer::vec_to_xml_doc_tree(text.clone().into_bytes()).unwrap();
    let root_id = again.get_root_id();
    let y = again.find_first_child(root_id, "y").unwrap().unwrap();
    let x = again.find_first_child(y, "a:x").unwrap().unwrap();
    let z = again.find_first_child(root_id, "a:z").unwrap().unwrap();
    assert_eq!(again.get_element(x).unwrap().get_namespace_uri(), Some("http://u1".to_string()), "{}", text);
    assert_eq!(again.get_element(z).unwrap().get_namespace_uri(), Some("http://u1".to_string()), "{}", text);
    assert_eq!(again.get_element(y).unwrap().get_alias_for_uri("http://u2"), Some("a".to_string()), "{}", text);
}

#[test]
fn a_tag_starting_with_a_colon_is_refused_and_leaves_no_trace() {
    let mut document = XmlDocument::new();
    let root_id = document.create_root_element_mut("root", None).unwrap();
    assert_eq!(document.append_child_element_mut(root_id, ":x", None), Err(XmlError::InvalidTagName));
    assert_eq!(document.append_child_element_mut(root_id, "-x", None), Err(XmlError::InvalidTagName));
    assert_eq!(document.create_root_element_mut(".x", None), Err(XmlError::InvalidTagName));
    assert_eq!(document.get_element(root_id).unwrap().get_child_contents().is_none(), true);
    let child = document.append_child_element_mut(root_id, "x", None).unwrap();
    assert_eq!(child, root_id + 1);
    assert!(is_valid_xml_name("\u{00e9}t\u{00e9}"));
    assert!(!is_valid_xml_name("9x"));
}

#[test]
fn clearing_and_removing_succeed_on_a_built_tree() {
    let mut document = XmlDocument::new();
    let root_id = document.create_root_element_mut("root", None).unwrap();
    let a = document.append_child_element_mut(root_id, "a", None).unwrap();
    let b = document.append_child_element_mut(a, "b", None).unwrap();
    let c = document.insert_child_element_before_first_tag_mut(root_id, "c", "a", None).unwrap();
    let d = document.append_child_element_mut(c, "d", None).unwrap();
    assert_eq!(document.find_all_by_attribute(root_id, "k", "v"), Ok(None));
    assert_eq!(document.remove_element_mut(a), Ok(()));
    assert!(document.get_element(a).is_err());
    assert!(document.get_element(b).is_err());
    assert_eq!(document.get_element(d).unwrap().get_id(), d);
    assert_eq!(document.clear_element_content_mut(root_id), Ok(()));
    assert!(document.get_element(c).is_err());
    assert!(document.get_element(d).is_err());
    assert_eq!(document.get_element(root_id).unwrap().get_child_contents().is_none(), true);
}

#[test]
fn declaring_the_same_namespaces_twice_changes_nothing() {
    let mut document = XmlDocument::new();
    let root_id = document.create_root_element_mut("root", None).unwrap();
    let declarations = [
        NamespaceDeclaration::new("http://one", "a"),
        NamespaceDeclaration::new("http://two", "b"),
    ];
    document.get_element_mut(root_id).unwrap().add_namespaces_mut(&declarations);
    let once = text_of(XmlSerializer::xml_tree_to_vec(&document).unwrap());
    document.get_element_mut(root_id).unwrap().add_namespaces_mut(&declarations);
    let twice = text_of(XmlSerializer::xml_tree_to_vec(&document).unwrap());
    assert_eq!(once, twice);
    assert!(once.contains("xmlns:a=\"http://one\""));
    assert!(once.contains("xmlns:b=\"http://two\""));
}

#[test]
fn callers_can_test_for_a_free_node_id() {
    let mut document = XmlDocument::new();
    assert!(document.has_free_id());
    let root_id = document.create_root_element_mut("root", None).unwrap();
    assert!(document.has_free_id());
    assert_eq!(document.append_child_element_mut(root_id, "c", None), Ok(root_id + 1));
}
