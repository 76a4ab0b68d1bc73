use authenticate_saml::c14n::{escape_attribute, escape_text, scope_with};
use authenticate_saml::Element;

#[test]
fn exclusive_c14n_emits_only_the_namespaces_an_element_uses() {
    let element = Element::parse(
        &[
            r##"<saml:Assertion xmlns:saml="urn:s" xmlns:x="urn:x">"##,
            r##"<ds:SignedInfo xmlns:ds="urn:d"><ds:Reference URI="#_1"/>"##,
            r##"</ds:SignedInfo></saml:Assertion>"##,
        ]
        .join(""),
    )
    .expect("parsed");
    let signed_info = element.find("SignedInfo").expect("signed info");

    let canonical = signed_info.canonical(&[
        ("saml".to_string(), "urn:s".to_string()),
        ("ds".to_string(), "urn:d".to_string()),
    ]);

    // ds is used and emitted; saml and x are in scope but not used.
    assert!(canonical.starts_with(r#"<ds:SignedInfo xmlns:ds="urn:d">"#));
    assert!(!canonical.contains("urn:s"));
    assert!(canonical.contains(r##"<ds:Reference URI="#_1"></ds:Reference>"##));
}

#[test]
fn text_and_attribute_values_are_escaped_the_canonical_way() {
    let element = Element::parse(r#"<a xmlns="urn:a" t="x&amp;&quot;y">1 &lt; 2 &amp; 3</a>"#)
        .expect("parsed");

    let canonical = element.canonical(&[]);

    assert_eq!(
        canonical,
        r#"<a xmlns="urn:a" t="x&amp;&quot;y">1 &lt; 2 &amp; 3</a>"#
    );
}

fn canonical(xml: &str) -> String {
    Element::parse(xml).expect("parsed").canonical(&[])
}

#[test]
fn every_character_that_is_escaped_is_escaped_and_reads_back() {
    let all = "&<>\"'\t\n\r x\u{e9}";
    let mut text = String::from("=");
    escape_text(all, &mut text);
    let mut value = String::from("=");
    escape_attribute(all, &mut value);

    assert_eq!(text, "=&amp;&lt;&gt;\"'\t\n&#xD; x\u{e9}");
    assert_eq!(value, "=&amp;&lt;>&quot;'&#x9;&#xA;&#xD; x\u{e9}");
    let read = Element::parse(&format!("<a b=\"{}\">{}</a>", &value[1..], &text[1..]))
        .expect("parsed");
    assert_eq!(read.text(), all);
    assert_eq!(read.attribute("b"), Some(all));
}

#[test]
fn declarations_are_rendered_once_where_they_are_used_in_order() {
    assert_eq!(
        canonical(
            r#"<b:r xmlns:z="1" xmlns:b="2" xmlns="3" xmlns:u="4" z:k="v"><b:c/><d><z:e/></d></b:r>"#
        ),
        [
            r#"<b:r xmlns:b="2" xmlns:z="1" z:k="v"><b:c></b:c>"#,
            r#"<d xmlns="3"><z:e></z:e></d></b:r>"#
        ]
        .join("")
    );
}

#[test]
fn a_prefix_declared_anew_is_rendered_anew() {
    assert_eq!(
        canonical(r#"<p:a xmlns:p="1"><p:b xmlns:p="2"><p:c xmlns:p="1"/></p:b></p:a>"#),
        r#"<p:a xmlns:p="1"><p:b xmlns:p="2"><p:c xmlns:p="1"></p:c></p:b></p:a>"#
    );
}

#[test]
fn the_empty_default_is_rendered_where_an_ancestor_rendered_another() {
    assert_eq!(
        canonical(r#"<a xmlns="u"><b xmlns=""/></a>"#),
        r#"<a xmlns="u"><b xmlns=""></b></a>"#
    );
    assert_ne!(
        canonical(r#"<a xmlns="u"><b xmlns=""/></a>"#),
        canonical(r#"<a xmlns="u"><b/></a>"#)
    );
    // Once, and again where a default came between.
    assert_eq!(
        canonical(r#"<a xmlns="u"><b xmlns=""><c/><d xmlns="u"><e xmlns=""/></d></b></a>"#),
        [
            r#"<a xmlns="u"><b xmlns=""><c></c>"#,
            r#"<d xmlns="u"><e xmlns=""></e></d></b></a>"#
        ]
        .join("")
    );
    // Not where there was none to undo, nor where the element does not use it.
    assert_eq!(canonical(r#"<a xmlns=""><b/></a>"#), "<a><b></b></a>");
    assert_eq!(
        canonical(r#"<p:a xmlns:p="1" xmlns="u"><b xmlns=""/></p:a>"#),
        r#"<p:a xmlns:p="1"><b></b></p:a>"#
    );
    assert_eq!(
        canonical(r#"<a xmlns="u" xmlns:p="1"><p:b xmlns=""/></a>"#),
        r#"<a xmlns="u"><p:b xmlns:p="1"></p:b></a>"#
    );
}

#[test]
fn an_element_is_written_after_what_was_there() {
    let element = Element::parse(r#"<p:a xmlns:p="1"/>"#).expect("parsed");
    let mut out = String::from("before<");

    element.render(&[], &[], &mut out);

    assert_eq!(out, format!("before<{}", element.canonical(&[])));
}

#[test]
fn attributes_stand_by_namespace_and_local_name_in_any_order_they_came() {
    let expected = concat_two(
        r#"<a xmlns:p="urn:z" xmlns:q="urn:b" a="0" b="1""#,
        r#" q:x="2" p:a="3"></a>"#,
    );

    assert_eq!(
        canonical(r#"<a xmlns:p="urn:z" xmlns:q="urn:b" p:a="3" b="1" q:x="2" a="0"/>"#),
        expected
    );
    assert_eq!(
        canonical(r#"<a q:x="2" a="0" xmlns:q="urn:b" b="1" p:a="3" xmlns:p="urn:z"/>"#),
        expected
    );
}

#[test]
fn the_prefix_xml_stands_for_its_namespace_undeclared() {
    assert_eq!(
        canonical(r#"<a xmlns:p="urn:p" p:b="3" xml:lang="en" z="1"/>"#),
        r#"<a xmlns:p="urn:p" z="1" xml:lang="en" p:b="3"></a>"#
    );
}

fn concat_two(a: &str, b: &str) -> String {
    format!("{a}{b}")
}

#[test]
fn what_is_in_scope_and_not_used_makes_no_difference() {
    let element = Element::parse(r#"<p:a><b/></p:a>"#).expect("parsed");
    let pair = |a: &str, b: &str| (a.to_string(), b.to_string());

    let used = element.canonical(&[pair("p", "1"), pair("", "2")]);

    assert_eq!(used, r#"<p:a xmlns:p="1"><b xmlns="2"></b></p:a>"#);
    assert_eq!(
        element.canonical(&[pair("x", "9"), pair("", "2"), pair("p", "1")]),
        used
    );
}

#[test]
fn the_canonical_form_reads_back_to_the_same_form() {
    for xml in [
        "<a/>",
        r#"<b:r xmlns:z="1" xmlns:b="2" z:k="v &lt; &quot;w" c='d'>t<!-- c -->u<d>&#13;&gt;</d></b:r>"#,
        r#"<p:a xmlns:p="1"><p:b xmlns:p="2" y="2" x="1"/><p:c>&amp;amp;</p:c></p:a>"#,
        r#"<a xmlns="zz"><b xmlns="" xmlns:m="mm" :k="1" m:l="2"/></a>"#,
    ] {
        let form = canonical(xml);

        assert_eq!(canonical(&form), form);
    }
    // A text in two runs reads back in one.
    let read = Element::parse(&canonical("<a>t<!-- c -->u</a>")).expect("parsed");
    assert_eq!(read.children.len(), 1);
    assert_eq!(read.text(), "tu");
}

#[test]
fn the_last_declaration_of_a_prefix_counts() {
    let pair = |a: &str, b: &str| (a.to_string(), b.to_string());

    let scope = scope_with(
        &[pair("p", "1"), pair("q", "2")],
        &vec![pair("p", "3"), pair("", "4"), pair("p", "5")],
    );

    assert_eq!(scope, vec![pair("q", "2"), pair("", "4"), pair("p", "5")]);
}

#[test]
fn documents_have_one_form_only_where_they_are_one_in_normal_form() {
    let one = canonical(r#"<a xmlns:u="9" y="2" x="1">t<!-- c -->u<b></b></a>"#);

    assert_eq!(canonical(r#"<a x="1" y="2">tu<b/></a>"#), one);
    for other in [
        r#"<a x="1" y="3">tu<b/></a>"#,
        r#"<a x="1">tu<b/></a>"#,
        r#"<a x="1" y="2">tu <b/></a>"#,
        r#"<a x="1" y="2"><b/>tu</a>"#,
        r#"<a x="1" y="2">tu<c/></a>"#,
        r#"<a x="1" y="2">tu&lt;b&gt;</a>"#,
        r#"<a xmlns="9" x="1" y="2">tu<b/></a>"#,
    ] {
        assert_ne!(canonical(other), one);
    }
}

#[test]
fn an_unbound_prefix_is_written_as_it_is() {
    assert_eq!(canonical("<p:a q:x='1'/>"), r#"<p:a q:x="1"></p:a>"#);
}
