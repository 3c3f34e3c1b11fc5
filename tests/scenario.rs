use css_select::{parse, Attribute, NodeData, ParseError, PseudoClass, Selectors, Tree};

fn element(name: &str, parent: Option<usize>) -> NodeData {
    NodeData {
        local_name: name.to_string(),
        namespace: None,
        id: String::new(),
        classes: Vec::new(),
        attributes: Vec::new(),
        states: Vec::new(),
        has_text: false,
        parent,
    }
}

/// html > (head > title, body > (h1#hero, p, p)), in document order.
fn document() -> Tree {
    let mut tree = Tree::new();
    tree.push(element("html", None)).unwrap();
    tree.push(element("head", Some(0))).unwrap();
    tree.push(element("title", Some(1))).unwrap();
    tree.push(element("body", Some(0))).unwrap();
    let mut h1 = element("h1", Some(3));
    h1.id = "hero".to_string();
    h1.attributes.push(Attribute {
        namespace: None,
        name: "id".to_string(),
        value: "hero".to_string(),
    });
    tree.push(h1).unwrap();
    tree.push(element("p", Some(3))).unwrap();
    tree.push(element("p", Some(3))).unwrap();
    tree
}

fn traversal() -> Vec<usize> {
    (0..7).collect()
}

#[test]
fn id_selector_matches_only_hero() {
    let tree = document();
    let sel = parse("#hero").unwrap();
    for n in 0..7 {
        assert_eq!(sel.matches(&tree, n), n == 4, "node {}", n);
    }
}

#[test]
fn descendant_or_id_yields_hero_and_paragraphs() {
    let tree = document();
    let sel = parse("body p, #hero").unwrap();
    let found = sel.filter(&tree, traversal()).collect_rest();
    assert_eq!(found, vec![4, 5, 6]);
    assert_eq!(found.len(), 3);
}

#[test]
fn universal_yields_every_node() {
    let tree = document();
    let sel = parse("*").unwrap();
    let found = sel.filter(&tree, traversal()).collect_rest();
    assert_eq!(found.len(), 7);
    assert_eq!(found[0], 0);
    assert_eq!(found[4], 4);
    assert_eq!(tree.node(found[4]).id, "hero");
}

#[test]
fn checked_follows_reported_state() {
    let mut tree = Tree::new();
    tree.push(element("select", None)).unwrap();
    let mut selected = element("option", Some(0));
    selected.attributes.push(Attribute {
        namespace: None,
        name: "selected".to_string(),
        value: String::new(),
    });
    selected.states.push(PseudoClass::Checked);
    tree.push(selected).unwrap();
    tree.push(element("option", Some(0))).unwrap();
    let sel = parse(":checked").unwrap();
    assert!(sel.matches(&tree, 1));
    assert!(!sel.matches(&tree, 2));
    assert!(!sel.matches(&tree, 0));
}

#[test]
fn malformed_text_is_a_syntax_error() {
    match Selectors::new("completely!!bad") {
        Err(ParseError::Syntax { position }) => assert_eq!(position, 10),
        other => panic!("unexpected: {:?}", other.map(|_| ())),
    }
}

#[test]
fn unknown_pseudo_class_is_named() {
    match parse(":made-up-pseudo") {
        Err(ParseError::UnsupportedPseudoClassOrElement { name, position }) => {
            assert_eq!(name, "made-up-pseudo");
            assert_eq!(position, 1);
        }
        other => panic!("unexpected: {:?}", other.map(|_| ())),
    }
}
