use authenticate_saml::reader::{digit_value, unescape, Reader};
use authenticate_saml::text::{
    lowered, occurs, split_str, to_decimal, trimmed, white_space,
};
use authenticate_saml::xml::Node;
use authenticate_saml::Element;

#[test]
fn an_element_is_parsed_with_its_namespaces_attributes_and_text() {
    let element = Element::parse(
        r#"<?xml version="1.0"?><saml:Assertion xmlns:saml="urn:s" ID="_1"><!-- c -->
               <saml:Issuer>idp</saml:Issuer></saml:Assertion>"#,
    )
    .expect("parsed");

    assert_eq!(element.local(), "Assertion");
    assert_eq!(element.prefix(), "saml");
    assert_eq!(element.attribute("ID"), Some("_1"));
    assert_eq!(element.find("Issuer").expect("issuer").text(), "idp");
}

#[test]
fn a_cdata_section_is_refused_rather_than_read_wrong() {
    let failure = Element::parse("<a><![CDATA[x]]></a>").expect_err("refused");

    assert!(failure.message.contains("CDATA"));
}

#[test]
fn removing_the_signature_leaves_the_rest_of_the_assertion() {
    let mut element =
        Element::parse(r#"<A xmlns="u"><Signature>s</Signature><Subject>who</Subject></A>"#)
            .expect("parsed");

    let removed = element.remove_first(&|child: &Element| child.local() == "Signature");

    assert!(removed);
    assert_eq!(
        element.canonical(&[]),
        r#"<A xmlns="u"><Subject>who</Subject></A>"#
    );
}

fn refused(xml: &str) -> String {
    Element::parse(xml).expect_err("refused").message
}

#[test]
fn every_fault_of_a_document_is_refused_by_name() {
    assert_eq!(refused("<?xml version='1.0'"), "the XML declaration is not closed");
    assert_eq!(refused("<!-- c"), "an XML comment is not closed");
    assert_eq!(refused("<a><!-- c</a>"), "an XML comment is not closed");
    let instruction = "the XML holds a DTD or processing instruction, which this reader refuses";
    assert_eq!(refused("<!DOCTYPE a><a/>"), instruction);
    assert_eq!(refused("<?pi?><a/>"), instruction);
    assert_eq!(refused("<?xml-stylesheet href='x'?><a/>"), instruction);
    assert_eq!(refused("<a><?pi?></a>"), instruction);
    assert_eq!(refused("<a><!DOCTYPE a></a>"), instruction);
    assert_eq!(refused("<a/><?pi?>"), instruction);
    assert_eq!(refused(""), "expected an XML element");
    assert_eq!(refused("text"), "expected an XML element");
    assert_eq!(refused("<a></a x>"), "an XML end tag is not closed");
    assert_eq!(refused("<a></ab>"), "an XML end tag is not closed");
    assert_eq!(refused("<a>text"), "an XML element is not closed");
    assert_eq!(refused("<a b>"), "an XML attribute has no value");
    assert_eq!(refused("<a b=c>"), "an XML attribute value is not quoted");
    assert_eq!(refused("<a b='c>"), "an XML attribute value is not closed");
    assert_eq!(refused("<a"), "an XML name does not end");
    assert_eq!(refused("< a>"), "an XML name is empty");
    assert_eq!(refused("<a>&amp</a>"), "an XML entity is not terminated");
    assert_eq!(
        refused("<a>&nbsp;</a>"),
        "the XML holds the entity '&nbsp;', which this reader does not define"
    );
    let character = "an XML character reference is not a character";
    assert_eq!(refused("<a>&#xD800;</a>"), character);
    assert_eq!(refused("<a>&#;</a>"), character);
    assert_eq!(refused("<a>&#+65;</a>"), character);
    assert_eq!(refused("<a b='&#x110000;'/>"), character);
    assert_eq!(refused("<a/>b"), "the XML has content after its root element");
    assert_eq!(refused("<a/><b/>"), "the XML has content after its root element");
}

#[test]
fn a_document_is_read_with_all_that_it_may_hold() {
    let element = Element::parse(concat_all(&[
        "\u{feff}\u{feff} <?xml version=\"1.0\"?> <!-- a --> \n",
        "<p:a xmlns='u' xmlns:p=\"v\" x = '1' y=\"a'b\" >t&#65;&#x42;&lt;&gt;&amp;&quot;&apos;",
        "<!-- c -->  <b/>tail</p:a > <!-- end --> ",
    ])
    .as_str())
    .expect("parsed");

    assert_eq!(element.name, "p:a");
    assert_eq!(
        element.namespaces,
        vec![
            ("".to_string(), "u".to_string()),
            ("p".to_string(), "v".to_string())
        ]
    );
    assert_eq!(
        element.attributes,
        vec![
            ("x".to_string(), "1".to_string()),
            ("y".to_string(), "a'b".to_string())
        ]
    );
    assert_eq!(element.children.len(), 4);
    assert_eq!(element.children[0], Node::Text("tAB<>&\"'".to_string()));
    assert_eq!(element.children[1], Node::Text("  ".to_string()));
    assert_eq!(element.elements().len(), 1);
    assert_eq!(element.elements()[0].name, "b");
    assert_eq!(element.text(), "tAB<>&\"'  tail");
}

fn concat_all(parts: &[&str]) -> String {
    parts.join("")
}

#[test]
fn a_name_is_its_prefix_and_its_local_part() {
    let named = |name: &str| Element {
        name: name.to_string(),
        namespaces: vec![],
        attributes: vec![],
        children: vec![],
    };

    assert_eq!(named("a:b").prefix(), "a");
    assert_eq!(named("a:b").local(), "b");
    assert_eq!(named("a:b:c").prefix(), "a");
    assert_eq!(named("a:b:c").local(), "b:c");
    assert_eq!(named("b").prefix(), "");
    assert_eq!(named("b").local(), "b");
}

#[test]
fn finding_is_depth_first_and_counts_the_element_itself() {
    let element =
        Element::parse("<r><a><x n='1'/></a><x n='2'/><p:y/></r>").expect("parsed");

    assert_eq!(element.find("x").expect("x").attribute("n"), Some("1"));
    assert_eq!(element.find("r").expect("r").name, "r");
    assert_eq!(element.find("y").expect("y").name, "p:y");
    assert!(element.find("z").is_none());
    assert!(element.single("y"));
    assert!(!element.single("x"));
    assert!(!element.single("z"));
    assert_eq!(element.children_named("x").len(), 1);
    assert_eq!(element.attribute_text("n"), "");
}

#[test]
fn a_start_tag_that_is_not_well_formed_is_refused_by_name() {
    let repeated = "an XML element has an attribute or a declaration twice";
    assert_eq!(refused(r#"<a x="1" x="2"/>"#), repeated);
    assert_eq!(refused(r#"<a x="1" y="2" x="1"/>"#), repeated);
    assert_eq!(refused(r#"<a xmlns="1" xmlns="2"/>"#), repeated);
    assert_eq!(refused(r#"<a xmlns:p="1" xmlns:p="1"/>"#), repeated);
    assert_eq!(refused(r#"<r><a x="1" x="2"/></r>"#), repeated);
    let apart = "an XML attribute is not set apart from the one before it";
    assert_eq!(refused(r#"<a b="1"c="2"/>"#), apart);
    assert_eq!(refused(r#"<a b="1"'c'/>"#), apart);
    let markup = "an XML attribute value holds a '<'";
    assert_eq!(refused(r#"<a b="1<2"/>"#), markup);
    assert_eq!(refused(r#"<a b="<!-- c -->"/>"#), markup);
    // The same name on another element, or in another prefix, is another.
    assert!(Element::parse(r#"<a x="1" p:x="2"><b x="3"/></a>"#).is_ok());
    assert!(Element::parse("<a b='&lt;'\n\tc='2'/>").is_ok());
}

#[test]
fn a_name_that_is_none_is_refused() {
    let none = "an XML name holds a character that a name cannot";
    assert_eq!(refused("<<x/>"), none);
    assert_eq!(refused("<a&b/>"), none);
    assert_eq!(refused("<a\"b\"/>"), none);
    assert_eq!(refused("<a'/>"), none);
    assert_eq!(refused("<1/>"), none);
    assert_eq!(refused("<-a/>"), none);
    assert_eq!(refused("<a!/>"), none);
    assert_eq!(refused("<a <b='1'/>"), none);
    assert_eq!(refused("<a &amp;='1'/>"), none);
    assert_eq!(refused("<a>\n<b<c/></a>"), none);
    assert_eq!(refused("<a\u{d7}/>"), none);
    for name in ["_", ":a", "a-b.c1", "p:a", "\u{e9}t\u{e9}", "a\u{b7}\u{301}", "\u{10000}"] {
        let element = Element::parse(&format!("<{name} {name}='1'/>")).expect(name);
        assert_eq!(element.name, name);
        assert_eq!(element.attribute(name), Some("1"));
    }
}

#[test]
fn a_comment_that_holds_dashes_is_refused() {
    let dashes = "an XML comment holds '--'";
    assert_eq!(refused("<!-- a -- b --><a/>"), dashes);
    assert_eq!(refused("<a><!-- a ---></a>"), dashes);
    assert_eq!(refused("<a/><!------>"), dashes);
    let open = "an XML comment is not closed";
    assert_eq!(refused("<a><!--></a>"), open);
    assert_eq!(refused("<a><!---></a>"), open);
    assert_eq!(refused("<!-- a -- b"), open);
}

#[test]
fn what_closes_a_cdata_section_is_refused_in_text() {
    assert_eq!(refused("<a>x]]>y</a>"), "the XML holds ']]>' in its text");
    let text = |xml: &str| Element::parse(xml).expect("parsed").text();
    assert_eq!(text("<a>]]&gt; ]] > ]>]</a>"), "]]> ]] > ]>]");
    assert_eq!(text("<a>]]<!-- c -->></a>"), "]]>");
    assert!(Element::parse("<a b=']]>'/>").is_ok());
}

#[test]
fn a_character_that_xml_does_not_allow_is_refused() {
    let refusal = "the XML holds a character that XML does not allow";
    assert_eq!(refused("<a>\u{1}</a>"), refusal);
    assert_eq!(refused("<a\u{b}b='1'/>"), refusal);
    assert_eq!(refused("<a b='\u{fffe}'/>"), refusal);
    assert_eq!(refused("<!-- \u{0} --><a/>"), refusal);
    assert_eq!(refused("<a>&#1;</a>"), refusal);
    assert_eq!(refused("<a b='&#xFFFF;'/>"), refusal);
    assert_eq!(refused("<a xmlns:p='&#x1f;'/>"), refusal);
    let text = |xml: &str| Element::parse(xml).expect("parsed").text();
    assert_eq!(
        text("<a>\t\n\r&#9;&#10;&#13;\u{7f}\u{fffd}&#x10FFFF;</a>"),
        "\t\n\r\t\n\r\u{7f}\u{fffd}\u{10ffff}"
    );
}

#[test]
fn a_reader_takes_one_element_and_leaves_what_follows() {
    for more in ["", "<", "<b/>", " text & more", "</a>"] {
        for first in ["<a/>", "<a x='1'>t<b/>u</a>", "<a><!-- c --></a >"] {
            let mut alone = Reader::new(first);
            let mut followed = Reader::new(&format!("{first}{more}"));

            assert_eq!(alone.element().expect(first), followed.element().expect(first));
            assert_eq!(alone.left(), "");
            assert_eq!(followed.left(), more);
        }
    }
    let mut reader = Reader::new("<?xml version='1.0'?> <!-- c --> <a> <b/></a>x");
    reader.skip_prolog().expect("a prolog");
    assert_eq!(reader.left(), "<a> <b/></a>x");
    let mut reader = Reader::new("  <!-- c -->\n<a/>");
    reader.skip_trivia().expect("trivia");
    assert_eq!(reader.left(), "<a/>");
    let mut reader = Reader::new("p:a x='1'>");
    assert_eq!(reader.take_name().expect("a name"), "p:a");
    let (namespaces, attributes) = reader.attributes().expect("attributes");
    assert_eq!(namespaces, vec![]);
    assert_eq!(attributes, vec![("x".to_string(), "1".to_string())]);
    assert_eq!(reader.left(), ">");
    let mut reader = Reader::new("t<b/></a>rest");
    assert_eq!(reader.children("a").expect("children").len(), 2);
    assert_eq!(reader.left(), "rest");
}

#[test]
fn a_comment_is_skipped_and_the_text_around_it_kept() {
    let text = |xml: &str| Element::parse(xml).expect("parsed").text();

    assert_eq!(text("<a>x<!--c--> y</a>"), "x y");
    assert_eq!(text("<a> <!--c--><!--d--> </a>"), "  ");
    assert_eq!(text("<a><!-- <b> - & -->z</a>"), "z");
    assert_eq!(text("<a><!---->z</a>"), "z");
    assert_eq!(text("<!-- c --> <a>t</a> <!-- d --> "), "t");
}

#[test]
fn what_follows_an_element_is_left_to_its_parent() {
    let element = Element::parse("<r><a>1</a>2<b/>3</r>").expect("parsed");

    assert_eq!(element.elements()[0].text(), "1");
    assert_eq!(element.children.len(), 4);
    assert_eq!(element.children[3], Node::Text("3".to_string()));
}

#[test]
fn removing_takes_a_child_before_a_deeper_descendant() {
    let mut element =
        Element::parse("<r><a><x n='1'/></a><x n='2'/></r>").expect("parsed");
    let is_x = |child: &Element| child.local() == "x";

    assert!(element.remove_first(&is_x));
    assert_eq!(element.find("x").expect("left").attribute("n"), Some("1"));
    assert!(element.remove_first(&is_x));
    assert!(element.find("x").is_none());
    assert!(!element.remove_first(&is_x));
    assert_eq!(element.canonical(&[]), "<r><a></a></r>");
}

#[test]
fn white_space_is_what_unicode_says() {
    for code in 0..=0x0010_ffff_u32 {
        if let Some(c) = char::from_u32(code) {
            assert_eq!(white_space(c), c.is_whitespace(), "{code:x}");
        }
    }
}

#[test]
fn text_is_trimmed_lowered_split_and_searched_as_strings_are() {
    assert_eq!(trimmed("\u{a0}\n a b \t"), "a b");
    assert_eq!(trimmed(" \n"), "");
    assert_eq!(lowered("AbZ@[\u{c9}"), "AbZ@[\u{c9}".to_ascii_lowercase());
    assert_eq!(split_str("a:b:c", ':'), Some(("a", "b:c")));
    assert_eq!(split_str("abc", ':'), None);
    assert!(occurs("xml-exc-c14n#", "exc"));
    assert!(occurs("abc", ""));
    assert!(!occurs("ab", "abc"));
}

#[test]
fn a_number_is_written_in_decimal() {
    for value in [0, 7, 10, -1, 1_800_000_000, i64::MAX, i64::MIN] {
        assert_eq!(to_decimal(value), value.to_string());
    }
}

#[test]
fn a_digit_has_its_value_in_its_radix() {
    for code in 0..0x100_u32 {
        let c = char::from_u32(code).expect("a character");
        assert_eq!(digit_value(c, 10), c.to_digit(10));
        assert_eq!(digit_value(c, 16), c.to_digit(16));
    }
}

#[test]
fn entities_are_unescaped_in_place() {
    assert_eq!(unescape("plain").expect("text"), "plain");
    assert_eq!(unescape("a&amp;b&#x1F600;&#10;").expect("text"), "a&b\u{1f600}\n");
    assert_eq!(unescape("&amp;lt;").expect("text"), "&lt;");
    assert!(unescape("&bogus;").is_err());
}

#[test]
fn a_copy_is_equal() {
    let element = Element::parse("<r a='1'><b>t</b></r>").expect("parsed");

    assert_eq!(element.clone(), element);
    assert_eq!(element.children[0].clone(), element.children[0]);
}
