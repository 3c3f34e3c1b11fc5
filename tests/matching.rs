use css_select::{
    parse, Attribute, CaseSensitivity, Event, FormData, NodeData, ParseError, PseudoClass,
    PseudoElement, SimpleSelector, Tree,
};

fn element(name: &str, parent: Option<usize>) -> NodeData {
    NodeData {
        local_name: name.to_string(),
        namespace: None,
        id: String::new(),
        classes: Vec::new(),
        attributes: Vec::new(),
        states: Vec::new(),
        has_text: false,
        parent,
    }
}

fn with_attr(mut node: NodeData, name: &str, value: &str) -> NodeData {
    node.attributes.push(Attribute {
        namespace: None,
        name: name.to_string(),
        value: value.to_string(),
    });
    node
}

/// div#main.box > (ul > (li.a, li.b, li.c), a[href], span)
fn sample() -> Tree {
    let mut tree = Tree::new();
    let mut div = element("div", None);
    div.id = "main".to_string();
    div.classes.push("box".to_string());
    div.classes.push("Wide".to_string());
    tree.push(div).unwrap();
    tree.push(element("ul", Some(0))).unwrap();
    for class in ["a", "b", "c"] {
        let mut li = element("li", Some(1));
        li.classes.push(class.to_string());
        tree.push(li).unwrap();
    }
    tree.push(with_attr(element("a", Some(0)), "href", "https://example.org/x.pdf")).unwrap();
    tree.push(with_attr(element("span", Some(0)), "lang", "en-US")).unwrap();
    tree
}

fn matching(selector: &str, tree: &Tree) -> Vec<usize> {
    let sel = parse(selector).unwrap();
    sel.filter(tree, (0..tree.len()).collect()).collect_rest()
}

#[test]
fn or_of_two_selectors_is_union() {
    let tree = sample();
    let a = parse("li.a").unwrap();
    let b = parse("span").unwrap();
    let both = parse("li.a, span").unwrap();
    for n in 0..tree.len() {
        assert_eq!(both.matches(&tree, n), a.matches(&tree, n) || b.matches(&tree, n));
    }
    assert_eq!(matching("li.a, span", &tree), vec![2, 6]);
}

#[test]
fn filter_keeps_input_order() {
    let tree = sample();
    let sel = parse("li").unwrap();
    let found = sel.filter(&tree, vec![4, 0, 2, 3]).collect_rest();
    assert_eq!(found, vec![4, 2, 3]);
}

#[test]
fn reverse_pulls_give_reversed_matches() {
    let tree = sample();
    let sel = parse("li, a").unwrap();
    let nodes: Vec<usize> = (0..tree.len()).collect();
    let forward = sel.filter(&tree, nodes.clone()).collect_rest();
    let mut backward = sel.filter(&tree, nodes).collect_rev();
    backward.reverse();
    assert_eq!(forward, backward);
    assert_eq!(forward, vec![2, 3, 4, 5]);
}

#[test]
fn pulls_from_both_ends_meet() {
    let tree = sample();
    let sel = parse("li").unwrap();
    let mut it = sel.filter(&tree, (0..tree.len()).collect());
    assert_eq!(it.next(), Some(2));
    assert_eq!(it.next_back(), Some(4));
    assert_eq!(it.next(), Some(3));
    assert_eq!(it.next_back(), None);
    assert_eq!(it.next(), None);
}

#[test]
fn filtering_twice_changes_nothing() {
    let tree = sample();
    let sel = parse("ul > li, #main").unwrap();
    let once = sel.filter(&tree, (0..tree.len()).collect()).collect_rest();
    let twice = sel.filter(&tree, once.clone()).collect_rest();
    assert_eq!(once, twice);
    assert_eq!(once, vec![0, 2, 3, 4]);
}

#[test]
fn parse_returns_for_arbitrary_text() {
    for text in [
        "", " ", ",", "a,", ",a", "[", "[a", "[a=", "[a='x", "#", ".", ":", "::", "a >", "> a",
        "a ~ ~ b", "\u{e9}l\u{e8}ve", "a\\b", "*|*", "a:not(b)", "[a=\"x\"]]", "\t a \n",
    ] {
        let _ = parse(text);
    }
    assert!(matches!(parse(""), Err(ParseError::Syntax { position: 0 })));
    assert!(matches!(parse("   "), Err(ParseError::Syntax { position: 3 })));
    assert!(matches!(parse("a,"), Err(ParseError::Syntax { position: 2 })));
    assert!(matches!(parse("a >"), Err(ParseError::Syntax { position: 3 })));
    assert!(matches!(parse("[a"), Err(ParseError::Syntax { position: 2 })));
    assert!(matches!(parse("[a='x"), Err(ParseError::Syntax { position: 3 })));
    assert!(parse("\t a \n").is_ok());
}

#[test]
fn pseudo_element_is_refused() {
    match parse("p::before") {
        Err(ParseError::UnsupportedPseudoClassOrElement { name, position }) => {
            assert_eq!(name, "before");
            assert_eq!(position, 3);
        }
        _ => panic!("pseudo-element accepted"),
    }
    let pe = PseudoElement { name: "after".to_string() };
    assert!(!pe.is_supported());
    assert_eq!(pe.to_css(), "::after");
}

#[test]
fn functional_pseudo_class_is_refused() {
    match parse("li:not(.a)") {
        Err(ParseError::UnsupportedPseudoClassOrElement { name, .. }) => assert_eq!(name, "not"),
        _ => panic!("functional pseudo-class accepted"),
    }
}

#[test]
fn pseudo_class_names_ignore_case() {
    let sel = parse(":HoVeR").unwrap();
    let SimpleSelector::PseudoClass(p) = &sel.0[0].compound(0)[0] else {
        panic!("not a pseudo-class");
    };
    assert_eq!(*p, PseudoClass::Hover);
}

#[test]
fn combinators() {
    let tree = sample();
    assert_eq!(matching("div li", &tree), vec![2, 3, 4]);
    assert_eq!(matching("div > li", &tree), Vec::<usize>::new());
    assert_eq!(matching("ul > li", &tree), vec![2, 3, 4]);
    assert_eq!(matching("li + li", &tree), vec![3, 4]);
    assert_eq!(matching(".a ~ li", &tree), vec![3, 4]);
    assert_eq!(matching("ul ~ span", &tree), vec![6]);
    assert_eq!(matching("ul + a", &tree), vec![5]);
    assert_eq!(matching("#main>ul>li.c", &tree), vec![4]);
}

#[test]
fn attribute_operators() {
    let tree = sample();
    assert_eq!(matching("[href]", &tree), vec![5]);
    assert_eq!(matching("[HREF]", &tree), vec![5]);
    assert_eq!(matching("[href$=\".pdf\"]", &tree), vec![5]);
    assert_eq!(matching("[href^='https:']", &tree), vec![5]);
    assert_eq!(matching("[href*=example]", &tree), vec![5]);
    assert_eq!(matching("[href*='']", &tree), Vec::<usize>::new());
    assert_eq!(matching("[lang|=en]", &tree), vec![6]);
    assert_eq!(matching("[lang|=en-US]", &tree), vec![6]);
    assert_eq!(matching("[lang|=e]", &tree), Vec::<usize>::new());
    assert_eq!(matching("[lang=en-US]", &tree), vec![6]);
    assert_eq!(matching("[lang=en]", &tree), Vec::<usize>::new());
    assert_eq!(matching("[missing]", &tree), Vec::<usize>::new());
}

#[test]
fn includes_matches_whole_words() {
    let mut tree = Tree::new();
    tree.push(with_attr(element("p", None), "rel", "nofollow  external")).unwrap();
    let sel = |s: &str| parse(s).unwrap().matches(&tree, 0);
    assert!(sel("[rel~=external]"));
    assert!(sel("[rel~=nofollow]"));
    assert!(!sel("[rel~=follow]"));
    assert!(!sel("[rel~='nofollow external']"));
    assert!(!sel("[rel~='']"));
}

#[test]
fn case_sensitivity_policy() {
    let tree = sample();
    let sel = parse("#MAIN").unwrap();
    assert!(!sel.matches(&tree, 0));
    assert!(sel.matches_with(&tree, 0, CaseSensitivity::AsciiCaseInsensitive));
    let wide = parse(".wide").unwrap();
    assert!(!wide.matches(&tree, 0));
    assert!(wide.matches_with(&tree, 0, CaseSensitivity::AsciiCaseInsensitive));
    assert!(parse("DIV").unwrap().matches(&tree, 0));
}

#[test]
fn links_need_a_link_element_and_href() {
    let mut tree = sample();
    tree.push(element("a", Some(0))).unwrap();
    tree.push(with_attr(element("A", Some(0)), "href", "/")).unwrap();
    tree.push(with_attr(element("div", Some(0)), "href", "/")).unwrap();
    assert_eq!(matching(":link", &tree), vec![5, 8]);
    assert_eq!(matching(":any-link", &tree), vec![5, 8]);
}

#[test]
fn root_and_empty() {
    let mut tree = sample();
    let mut text = element("p", Some(6));
    text.has_text = true;
    tree.push(text).unwrap();
    assert_eq!(matching(":root", &tree), vec![0]);
    // An element counts as empty unless it has both element children and text.
    let mut full = element("section", None);
    full.has_text = true;
    tree.push(full).unwrap();
    tree.push(element("b", Some(8))).unwrap();
    assert_eq!(matching(":empty", &tree), vec![0, 1, 2, 3, 4, 5, 6, 7, 9]);
}

#[test]
fn states_reported_by_the_host() {
    let mut tree = Tree::new();
    let mut node = element("input", None);
    node.states.push(PseudoClass::Disabled);
    node.states.push(PseudoClass::Focus);
    tree.push(node).unwrap();
    let on = |s: &str| parse(s).unwrap().matches(&tree, 0);
    assert!(on(":disabled"));
    assert!(on(":focus"));
    assert!(on("input:disabled:focus"));
    assert!(!on(":enabled"));
    assert!(!on(":hover"));
    assert!(!on(":visited"));
}

#[test]
fn push_refuses_a_parent_not_yet_present() {
    let mut tree = Tree::new();
    assert_eq!(tree.push(element("a", Some(0))), None);
    assert_eq!(tree.len(), 0);
    assert_eq!(tree.push(element("a", None)), Some(0));
    assert_eq!(tree.push(element("b", Some(0))), Some(1));
    assert_eq!(tree.parent(1), Some(0));
    assert_eq!(tree.prev_sibling_element(1), None);
}

#[test]
fn pseudo_class_registry() {
    assert!(PseudoClass::Active.is_active_or_hover());
    assert!(PseudoClass::Hover.is_active_or_hover());
    assert!(!PseudoClass::Focus.is_active_or_hover());
    assert!(PseudoClass::Focus.is_user_action_state());
    assert!(!PseudoClass::Checked.is_user_action_state());
    assert!(!PseudoClass::Link.has_zero_specificity());
    assert_eq!(PseudoClass::AnyLink.to_css(), ":any-link");
    assert_eq!(PseudoClass::Indeterminate.to_css(), ":indeterminate");
}

#[test]
fn events_and_form_data() {
    assert!(Event::Click.is_implemented());
    assert!(!Event::Ready.is_implemented());
    assert!(!Event::Hover.is_implemented());
    let data = FormData::from_pairs(vec![
        ("a".to_string(), "1".to_string()),
        ("a".to_string(), "2".to_string()),
    ]);
    assert_eq!(data.len(), 2);
    assert_eq!(data.0[1].name, "a");
    assert_eq!(data.0[1].value, "2");
}

#[test]
fn parsed_structure() {
    let list = parse(" ul > li.a  span, *#x ").unwrap();
    assert_eq!(list.0.len(), 2);
    let first = &list.0[0];
    assert_eq!(first.len(), 3);
    assert_eq!(first.combinator(0), css_select::Combinator::Child);
    assert_eq!(first.combinator(1), css_select::Combinator::Descendant);
    assert!(matches!(&first.compound(1)[0], SimpleSelector::LocalName(n) if n == "li"));
    assert!(matches!(&first.compound(1)[1], SimpleSelector::Class(n) if n == "a"));
    let second = &list.0[1];
    assert_eq!(second.len(), 1);
    assert_eq!(second.compound(0).len(), 1);
    assert!(matches!(&second.compound(0)[0], SimpleSelector::Id(n) if n == "x"));
    let attr = parse("[ lang |= \"en\" ]").unwrap();
    assert!(matches!(
        &attr.0[0].compound(0)[0],
        SimpleSelector::AttrMatch(n, css_select::AttrOperator::DashMatch, v) if n == "lang" && v == "en"
    ));
}

#[test]
fn rendering_is_canonical_and_parses_back() {
    for (text, canonical) in [
        ("body p,#hero", "body p, #hero"),
        ("*", "*"),
        ("ul>li.a+li ~ SPAN", "ul > li.a + li ~ SPAN"),
        ("[lang|=en][title='say \"hi\"'] :HOVER", "[lang|=\"en\"][title='say \"hi\"'] :hover"),
        ("[href] *:root:empty", "[href] :root:empty"),
        ("a[x~=y][x^=y][x$=y][x*=y][x=y]", "a[x~=\"y\"][x^=\"y\"][x$=\"y\"][x*=\"y\"][x=\"y\"]"),
    ] {
        let list = parse(text).unwrap();
        let rendered = list.to_css();
        assert_eq!(rendered, canonical);
        let again = parse(&rendered).unwrap();
        assert_eq!(again.to_css(), rendered);
        assert_eq!(list.0[0].to_css(), canonical.split(", ").next().unwrap());
    }
}

#[test]
fn selectors_from_str() {
    let tree = sample();
    let sel: css_select::Selectors = "li.b".parse().unwrap();
    assert_eq!(sel.filter(&tree, (0..tree.len()).collect()).collect_rest(), vec![3]);
    assert!("li.".parse::<css_select::Selectors>().is_err());
}

#[test]
fn sibling_links() {
    let tree = sample();
    assert_eq!(tree.next_sibling_element(1), Some(5));
    assert_eq!(tree.next_sibling_element(2), Some(3));
    assert_eq!(tree.next_sibling_element(4), None);
    assert_eq!(tree.prev_sibling_element(6), Some(5));
    assert_eq!(tree.prev_sibling_element(5), Some(1));
    assert!(tree.is_root(0));
    assert!(!tree.is_root(1));
    assert!(tree.has_child_element(1));
    assert!(!tree.has_child_element(2));
    assert!(tree.is_link(5));
    assert_eq!(tree.attribute(6, "LANG").map(|v| v.as_str()), Some("en-US"));
}
