use html_case::dom::{Attribute, Document, Node};
use html_case::error::TransformError;
use html_case::case::TransformType;
use html_case::transform::{
    apply_case, convert_case, render_body, set_case_text_nodes, transform, update_p_elements,
    TransformRequest,
};

const XHTML: &str = "http://www.w3.org/1999/xhtml";

fn tagged(name: &str, children: Vec<Node>) -> Node {
    Node::Element {
        namespace: XHTML.to_string(),
        name: name.to_string(),
        attributes: Vec::new(),
        children,
    }
}

fn words(content: &str) -> Node {
    Node::Text { content: content.to_string() }
}

fn upper(html: &str) -> Result<String, TransformError> {
    transform(html, &TransformType::Uppercase)
}

fn lower(html: &str) -> Result<String, TransformError> {
    transform(html, &TransformType::Lowercase)
}

#[test]
fn test_transform_endpoint_1() {
    let payload = TransformRequest {
        transform: TransformType::Uppercase,
        html: "<p>Hello world</p>".to_string(),
    };
    assert_eq!(payload.validate(), Ok(()));
    let body = update_p_elements(&payload.html, &payload.transform);
    assert_eq!(body, Ok("<p>HELLO WORLD</p>".to_string()));
}

#[test]
fn test_transform_endpoint_2() {
    let payload = TransformRequest {
        transform: TransformType::Lowercase,
        html: "<p>Hello WORLD</p>".to_string(),
    };
    assert_eq!(payload.validate(), Ok(()));
    let body = update_p_elements(&payload.html, &payload.transform);
    assert_eq!(body, Ok("<p>hello world</p>".to_string()));
}

#[test]
fn test_transform_endpoint_3() {
    let payload = TransformRequest {
        transform: TransformType::Uppercase,
        html: "<div><p>First paragraph</p><span>Not a paragraph</span><p>Second paragraph</p></div>".to_string(),
    };
    assert_eq!(payload.validate(), Ok(()));
    let body = update_p_elements(&payload.html, &payload.transform);
    assert_eq!(
        body,
        Ok("<div><p>FIRST PARAGRAPH</p><span>Not a paragraph</span><p>SECOND PARAGRAPH</p></div>".to_string())
    );
}

#[test]
fn test_transform_endpoint_4() {
    let payload = TransformRequest {
        transform: TransformType::Uppercase,
        html: "<p>Text with <strong>bold</strong> and <em>italic</em> elements</p>".to_string(),
    };
    assert_eq!(payload.validate(), Ok(()));
    let body = update_p_elements(&payload.html, &payload.transform);
    assert_eq!(
        body,
        Ok("<p>TEXT WITH <strong>BOLD</strong> AND <em>ITALIC</em> ELEMENTS</p>".to_string())
    );
}

#[test]
fn plain_paragraph_text_takes_the_case() {
    assert_eq!(upper("<p>Mixed Case 123</p>"), Ok("<p>MIXED CASE 123</p>".to_string()));
    assert_eq!(lower("<p>Mixed Case 123</p>"), Ok("<p>mixed case 123</p>".to_string()));
}

#[test]
fn case_mapping_is_the_full_one() {
    assert_eq!(upper("<p>stra\u{df}e</p>"), Ok("<p>STRASSE</p>".to_string()));
    assert_eq!(lower("<p>\u{c4}RGER</p>"), Ok("<p>\u{e4}rger</p>".to_string()));
    assert_eq!(lower("<p>\u{39f}\u{394}\u{39f}\u{3a3}</p>"), Ok("<p>\u{3bf}\u{3b4}\u{3bf}\u{3c2}</p>".to_string()));
    assert_eq!(convert_case("na\u{ef}ve", &TransformType::Uppercase), "NA\u{cf}VE");
    assert_eq!(convert_case("LOUD", &TransformType::Lowercase), "loud");
}

#[test]
fn transforming_twice_is_transforming_once() {
    let inputs = [
        "<p>Hello world</p>",
        "<div><p>First</p><span>Kept</span><p>Second</p></div>",
        "<p>Text with <strong>bold</strong></p>",
        "<p>a &amp; b</p>text",
    ];
    for html in inputs {
        for case in [TransformType::Uppercase, TransformType::Lowercase] {
            let once = transform(html, &case).unwrap();
            let twice = transform(&once, &case).unwrap();
            assert_eq!(twice, once);
        }
    }
}

#[test]
fn an_empty_body_comes_back_empty_and_is_then_refused() {
    let once = upper("<body></body>");
    assert_eq!(once, Ok(String::new()));
    assert_eq!(upper(&once.unwrap()), Err(TransformError::EmptyInput));
}

#[test]
fn a_second_reading_can_differ_from_the_first() {
    let once = upper("<pre>\n\nkept</pre><p>x</p>").unwrap();
    assert_eq!(once, "<pre>\nkept</pre><p>X</p>");
    let twice = upper(&once).unwrap();
    assert_eq!(twice, "<pre>kept</pre><p>X</p>");
}

#[test]
fn text_next_to_a_paragraph_is_not_altered() {
    assert_eq!(
        upper("<p>shout</p><span>Quiet text</span>"),
        Ok("<p>SHOUT</p><span>Quiet text</span>".to_string())
    );
    assert_eq!(
        lower("Loose Text<p>HUSH</p><b>Bold Text</b>"),
        Ok("Loose Text<p>hush</p><b>Bold Text</b>".to_string())
    );
}

#[test]
fn nested_elements_keep_tags_and_attributes() {
    assert_eq!(
        upper("<p>Text with <strong>bold</strong></p>"),
        Ok("<p>TEXT WITH <strong>BOLD</strong></p>".to_string())
    );
    assert_eq!(
        upper("<p class=\"Lead\" id=\"a\">see <a href=\"/Path?q=x\">the <i>link</i></a></p>"),
        Ok("<p class=\"Lead\" id=\"a\">SEE <a href=\"/Path?q=x\">THE <i>LINK</i></a></p>".to_string())
    );
}

#[test]
fn paragraphs_are_transformed_in_document_order() {
    assert_eq!(
        upper("<div><p>First paragraph</p><span>Not a paragraph</span><p>Second paragraph</p></div>"),
        Ok("<div><p>FIRST PARAGRAPH</p><span>Not a paragraph</span><p>SECOND PARAGRAPH</p></div>".to_string())
    );
    assert_eq!(
        lower("<p>ONE</p><ul><li>Item<p>TWO</p></li></ul><p>THREE</p>"),
        Ok("<p>one</p><ul><li>Item<p>two</p></li></ul><p>three</p>".to_string())
    );
}

#[test]
fn a_paragraph_inside_a_paragraph_is_rewritten_like_any_other() {
    assert_eq!(
        upper("<p>outer<button><p>inner</p></button></p>"),
        Ok("<p>OUTER<button><p>INNER</p></button></p>".to_string())
    );
}

#[test]
fn blank_input_is_refused() {
    for case in [TransformType::Uppercase, TransformType::Lowercase] {
        assert_eq!(transform("", &case), Err(TransformError::EmptyInput));
        assert_eq!(transform(" ", &case), Err(TransformError::EmptyInput));
        assert_eq!(transform(" \n\t\r ", &case), Err(TransformError::EmptyInput));
        assert_eq!(transform("\u{a0}\u{2003}", &case), Err(TransformError::EmptyInput));
    }
}

#[test]
fn validate_refuses_blank_html_only() {
    let blank = TransformRequest { transform: TransformType::Lowercase, html: "  \n".to_string() };
    assert_eq!(blank.validate(), Err(TransformError::EmptyInput));
    let empty = TransformRequest { transform: TransformType::Uppercase, html: String::new() };
    assert_eq!(empty.validate(), Err(TransformError::EmptyInput));
    let text = TransformRequest { transform: TransformType::Uppercase, html: " x ".to_string() };
    assert_eq!(text.validate(), Ok(()));
}

#[test]
fn input_without_paragraphs_comes_back_unchanged() {
    assert_eq!(
        upper("<div><span>Keep Me</span></div>"),
        Ok("<div><span>Keep Me</span></div>".to_string())
    );
    assert_eq!(lower("Just Text"), Ok("Just Text".to_string()));
    assert_eq!(
        upper("<div>line<br/>break<img src=\"a.png\"/></div>"),
        Ok("<div>line<br>break<img src=\"a.png\"></div>".to_string())
    );
}

#[test]
fn only_the_body_is_written() {
    assert_eq!(
        upper("<html><head><title>Title</title></head><body><p>text</p></body></html>"),
        Ok("<p>TEXT</p>".to_string())
    );
}

#[test]
fn comments_are_carried_through() {
    assert_eq!(
        upper("<p>a<!-- in --></p><!-- between --><p>b</p>"),
        Ok("<p>A<!-- in --></p><!-- between --><p>B</p>".to_string())
    );
}

#[test]
fn set_case_text_nodes_rewrites_below_the_node_only() {
    let mut node = Node::Element {
        namespace: XHTML.to_string(),
        name: "section".to_string(),
        attributes: vec![Attribute {
            namespace: String::new(),
            name: "title".to_string(),
            value: "Mixed".to_string(),
        }],
        children: vec![
            words("one "),
            tagged("b", vec![words("Two"), tagged("i", vec![words("three")])]),
            Node::Comment { content: "four".to_string() },
        ],
    };
    set_case_text_nodes(&mut node, &TransformType::Uppercase);
    let expected = Node::Element {
        namespace: XHTML.to_string(),
        name: "section".to_string(),
        attributes: vec![Attribute {
            namespace: String::new(),
            name: "title".to_string(),
            value: "Mixed".to_string(),
        }],
        children: vec![
            words("ONE "),
            tagged("b", vec![words("TWO"), tagged("i", vec![words("THREE")])]),
            Node::Comment { content: "four".to_string() },
        ],
    };
    assert_eq!(node, expected);

    let mut text = words("Alone");
    set_case_text_nodes(&mut text, &TransformType::Uppercase);
    assert_eq!(text, words("Alone"));
}

#[test]
fn apply_case_rewrites_paragraphs_and_nothing_else() {
    let mut doc = Document {
        root: tagged(
            "html",
            vec![
                tagged("head", vec![tagged("title", vec![words("Title")])]),
                tagged(
                    "body",
                    vec![
                        words("Loose"),
                        tagged("P", vec![words("First"), tagged("em", vec![words("Deep")])]),
                        tagged("span", vec![words("Kept")]),
                        tagged("div", vec![tagged("p", vec![words("Second")])]),
                    ],
                ),
            ],
        ),
    };
    apply_case(&mut doc, &TransformType::Lowercase);
    let expected = Document {
        root: tagged(
            "html",
            vec![
                tagged("head", vec![tagged("title", vec![words("Title")])]),
                tagged(
                    "body",
                    vec![
                        words("Loose"),
                        tagged("P", vec![words("first"), tagged("em", vec![words("deep")])]),
                        tagged("span", vec![words("Kept")]),
                        tagged("div", vec![tagged("p", vec![words("second")])]),
                    ],
                ),
            ],
        ),
    };
    assert_eq!(doc, expected);
}

#[test]
fn render_body_writes_the_children_of_the_first_body() {
    let doc = Document {
        root: tagged(
            "html",
            vec![tagged("head", vec![]), tagged("body", vec![tagged("p", vec![words("x")]), words("y")])],
        ),
    };
    assert_eq!(render_body(&doc), Ok("<p>x</p>y".to_string()));
}

#[test]
fn a_document_without_a_body_is_an_error() {
    let doc = Document { root: tagged("html", vec![tagged("head", vec![])]) };
    assert_eq!(render_body(&doc), Err(TransformError::BodyNotFound));
}

#[test]
fn a_body_with_a_repeated_attribute_cannot_be_written() {
    let twice = Node::Element {
        namespace: XHTML.to_string(),
        name: "a".to_string(),
        attributes: vec![
            Attribute { namespace: String::new(), name: "href".to_string(), value: "1".to_string() },
            Attribute { namespace: String::new(), name: "href".to_string(), value: "2".to_string() },
        ],
        children: Vec::new(),
    };
    let doc = Document { root: tagged("html", vec![tagged("body", vec![twice])]) };
    assert_eq!(render_body(&doc), Err(TransformError::SerializationError));
}
