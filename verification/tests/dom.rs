use html_case::dom::{Attribute, Document, Node};
use html_case::text::{blank, tags_match};

const HTML_NS: &str = "http://www.w3.org/1999/xhtml";

fn el(name: &str, children: Vec<Node>) -> Node {
    Node::Element {
        namespace: HTML_NS.to_string(),
        name: name.to_string(),
        attributes: Vec::new(),
        children,
    }
}

fn txt(content: &str) -> Node {
    Node::Text { content: content.to_string() }
}

fn sample() -> Document {
    Document {
        root: el(
            "html",
            vec![
                el("head", vec![]),
                el(
                    "body",
                    vec![
                        el("p", vec![txt("a"), el("span", vec![el("p", vec![txt("b")])])]),
                        txt("c"),
                        el("div", vec![el("P", vec![]), el("pre", vec![])]),
                        el("p", vec![]),
                    ],
                ),
            ],
        ),
    }
}

#[test]
fn select_lists_matches_in_document_order() {
    let doc = sample();
    let expected: Vec<Vec<usize>> =
        vec![vec![1, 0], vec![1, 0, 1, 0], vec![1, 2, 0], vec![1, 3]];
    assert_eq!(doc.select("p"), expected);
}

#[test]
fn select_ignores_the_case_of_ascii_letters() {
    let doc = sample();
    assert_eq!(doc.select("P"), doc.select("p"));
    assert_eq!(doc.select("BODY"), vec![vec![1]]);
    assert_eq!(doc.select("pre"), vec![vec![1, 2, 1]]);
}

#[test]
fn select_includes_the_root() {
    let doc = sample();
    let expected: Vec<Vec<usize>> = vec![vec![]];
    assert_eq!(doc.select("html"), expected);
}

#[test]
fn select_without_a_match_is_empty() {
    let doc = sample();
    let nothing: Vec<Vec<usize>> = Vec::new();
    assert_eq!(doc.select("table"), nothing);
    assert_eq!(doc.select(""), nothing);
    assert_eq!(doc.select("pp"), nothing);
}

#[test]
fn node_at_follows_a_path() {
    let doc = sample();
    assert_eq!(doc.node_at(&vec![]), Some(&doc.root));
    assert_eq!(doc.node_at(&vec![1, 1]), Some(&txt("c")));
    assert_eq!(doc.node_at(&vec![1, 0, 1, 0, 0]), Some(&txt("b")));
    assert_eq!(doc.node_at(&vec![1, 4]), None);
    assert_eq!(doc.node_at(&vec![1, 1, 0]), None);
}

#[test]
fn every_selected_path_leads_to_an_element_of_that_tag() {
    let doc = sample();
    for path in doc.select("p") {
        match doc.node_at(&path) {
            Some(Node::Element { name, .. }) => assert!(name.eq_ignore_ascii_case("p")),
            other => panic!("no element at {:?}: {:?}", path, other),
        }
    }
}

#[test]
fn a_tree_is_well_formed_when_attribute_keys_are_unique() {
    let attr = |namespace: &str, name: &str, value: &str| Attribute {
        namespace: namespace.to_string(),
        name: name.to_string(),
        value: value.to_string(),
    };
    let fine = Node::Element {
        namespace: HTML_NS.to_string(),
        name: "a".to_string(),
        attributes: vec![
            attr("", "href", "x"),
            attr("http://www.w3.org/1999/xlink", "href", "x"),
            attr("", "title", "x"),
        ],
        children: vec![txt("t")],
    };
    assert!(fine.is_well_formed());
    let repeated = Node::Element {
        namespace: HTML_NS.to_string(),
        name: "a".to_string(),
        attributes: vec![attr("", "href", "x"), attr("", "title", "y"), attr("", "href", "z")],
        children: Vec::new(),
    };
    assert!(!repeated.is_well_formed());
    assert!(!el("div", vec![txt("t"), el("p", vec![repeated])]).is_well_formed());
    assert!(txt("t").is_well_formed());
    assert!(attr("", "a", "1").same_key(&attr("", "a", "2")));
    assert!(!attr("", "a", "1").same_key(&attr("x", "a", "1")));
    assert!(!attr("", "a", "1").same_key(&attr("", "b", "1")));
}

#[test]
fn blank_means_white_space_only() {
    assert!(blank(""));
    assert!(blank(" \t\r\n"));
    assert!(blank("\u{2028}\u{3000}"));
    assert!(!blank(" . "));
    assert!(!blank("\u{200b}"));
}

#[test]
fn white_space_is_what_the_standard_library_takes_for_it() {
    let listed = |c: char| {
        ('\u{9}'..='\u{d}').contains(&c)
            || c == ' '
            || c == '\u{85}'
            || c == '\u{a0}'
            || c == '\u{1680}'
            || ('\u{2000}'..='\u{200a}').contains(&c)
            || c == '\u{2028}'
            || c == '\u{2029}'
            || c == '\u{202f}'
            || c == '\u{205f}'
            || c == '\u{3000}'
    };
    let mut one = String::new();
    for c in '\0'..=char::MAX {
        one.clear();
        one.push(c);
        assert_eq!(blank(&one), listed(c), "U+{:04X}", c as u32);
        assert_eq!(one.trim().is_empty(), listed(c), "U+{:04X}", c as u32);
    }
}

#[test]
fn blank_is_what_trimming_to_nothing_is() {
    for text in ["", " ", "\t\n\r", " a", "a ", " \u{a0} \u{3000}", "\u{feff}", " \u{200b} ", "\u{1680}x"] {
        assert_eq!(blank(text), text.trim().is_empty(), "{:?}", text);
    }
}

#[test]
fn tags_match_up_to_the_case_of_ascii_letters() {
    assert!(tags_match("", ""));
    assert!(tags_match("p", "P"));
    assert!(tags_match("BoDy", "bOdY"));
    assert!(tags_match("h1", "H1"));
    assert!(tags_match("foreignObject", "foreignobject"));
    assert!(!tags_match("p", ""));
    assert!(!tags_match("p", "pp"));
    assert!(!tags_match("pp", "p"));
    assert!(!tags_match("p", "q"));
    assert!(!tags_match("a@", "a`"));
    assert!(!tags_match("a[", "a{"));
    assert!(!tags_match("\u{e9}", "\u{c9}"));
    assert!(tags_match("\u{e9}Z", "\u{e9}z"));
    assert!(!tags_match("\u{212a}", "k"));
}

#[test]
fn tags_match_as_the_standard_library_compares() {
    let names = ["", "p", "P", "q", "pp", "Body", "BODY", "h1", "a@", "a`", "\u{e9}", "\u{c9}", "z{", "Z["];
    for a in names {
        for b in names {
            assert_eq!(tags_match(a, b), a.eq_ignore_ascii_case(b), "{:?} {:?}", a, b);
        }
    }
}
