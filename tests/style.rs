use browsah::css::{Declaration, Ruleset, Selector, SimpleSelector, Value};
use browsah::dom::{DOMAttributes, DOMContent, DOMElement};
use browsah::style::{Specificity, StyleMap, StyledContent, StyledElement};

fn element(name: &str, attrs: Vec<(&str, &str)>, contents: Vec<DOMContent>) -> DOMElement {
    let mut attributes = DOMAttributes::empty();
    for (k, v) in attrs {
        attributes.insert(k.to_string(), v.to_string());
    }
    DOMElement::new(name, Some(attributes), contents)
}

fn rule(selectors: Vec<Selector>, declarations: Vec<(&str, Value)>) -> Ruleset {
    Ruleset {
        selectors,
        declarations: declarations
            .into_iter()
            .map(|(n, v)| Declaration::new(n, v))
            .collect(),
    }
}

fn keyword(k: &str) -> Value {
    Value::Keyword(k.to_string())
}

fn type_sel(n: &str) -> Selector {
    Selector::Simple(SimpleSelector::Type(n.to_string()))
}

fn child(e: &StyledElement, i: usize) -> &StyledElement {
    match &e.contents[i] {
        StyledContent::Element(c) => c,
        StyledContent::Text(_) => panic!("not an element"),
    }
}

fn is_keyword(v: Option<&Value>, k: &str) -> bool {
    matches!(v, Some(Value::Keyword(s)) if s == k)
}

#[test]
fn test_specificity() {
    let a = Specificity(0, 0, 0, 1);
    let b = Specificity(0, 1, 0, 1);
    let c = Specificity(0, 0, 0, 0);
    assert!(b > a);
    assert!(a > c);
    assert!(b > c);
}

#[test]
fn test_does_apply() {
    let dom = StyledElement::from_dom(DOMElement::new("div", None, vec![]));
    let style = Selector::Simple(SimpleSelector::Type("div".to_string()));
    assert!(dom.does_rule_apply(&style));

    let dom = StyledElement::from_dom(DOMElement::new("p", None, vec![]));
    assert!(!dom.does_rule_apply(&style));

    let style = Selector::Compound(vec![
        SimpleSelector::Type("div".to_string()),
        SimpleSelector::Class("wide".to_string()),
    ]);
    let dom = StyledElement::from_dom(element("p", vec![("class", "wide")], vec![]));
    assert!(dom.does_rule_apply(&style));
}

#[test]
fn specificity_of_selectors() {
    let sel = Selector::Compound(vec![
        SimpleSelector::Type("a".to_string()),
        SimpleSelector::Class("b".to_string()),
        SimpleSelector::ID("c".to_string()),
        SimpleSelector::Attribute("d".to_string()),
    ]);
    assert_eq!(Specificity::from_selector(&sel), Specificity(1, 1, 1, 1));
    let comb = Selector::Combinator(
        Box::new(type_sel("a")),
        browsah::css::Combinator::Child,
        Box::new(Selector::Simple(SimpleSelector::PseudoClass("hover".to_string()))),
    );
    assert_eq!(Specificity::from_selector(&comb), Specificity(0, 0, 1, 1));
    assert_eq!(Specificity(1, 2, 3, 4).weight(), 1234);
    assert_eq!(
        Specificity::sum(&[Specificity(0, 0, 0, 1), Specificity(0, 1, 0, 0)]),
        Specificity(0, 1, 0, 1)
    );
}

#[test]
fn class_matching_splits_on_whitespace() {
    let dom = StyledElement::from_dom(element("p", vec![("class", " big\twide  red ")], vec![]));
    assert!(dom.has_class("wide"));
    assert!(dom.has_class("red"));
    assert!(!dom.has_class("wid"));
    assert!(!dom.has_class(""));
    let dom = StyledElement::from_dom(element("p", vec![("id", "main")], vec![]));
    assert!(dom.id_is("main"));
    assert!(!dom.id_is("mai"));
}

#[test]
fn attribute_and_pseudo_selectors_never_match() {
    let dom = StyledElement::from_dom(element("p", vec![("href", "x")], vec![]));
    assert!(!dom.does_simple_selector_apply(&SimpleSelector::Attribute("href".to_string())));
    assert!(!dom.does_simple_selector_apply(&SimpleSelector::PseudoClass("hover".to_string())));
    assert!(dom.does_simple_selector_apply(&SimpleSelector::Universal));
    let comb = Selector::Combinator(
        Box::new(type_sel("p")),
        browsah::css::Combinator::Descendant,
        Box::new(type_sel("p")),
    );
    assert!(!dom.does_rule_apply(&comb));
}

#[test]
fn insert_keeps_higher_specificity() {
    let mut m = StyleMap::new();
    m.insert("color", keyword("red"), Specificity(0, 1, 0, 0));
    m.insert("color", keyword("blue"), Specificity(0, 0, 0, 1));
    assert!(is_keyword(m.get("color"), "red"));
    m.insert("color", keyword("green"), Specificity(0, 1, 0, 0));
    assert!(is_keyword(m.get("color"), "green"));
    assert!(m.get("width").is_none());
}

fn id_rule() -> Ruleset {
    rule(
        vec![Selector::Simple(SimpleSelector::ID("x".to_string()))],
        vec![("color", keyword("blue"))],
    )
}

fn type_rule() -> Ruleset {
    rule(vec![type_sel("div")], vec![("color", keyword("red"))])
}

#[test]
fn id_beats_type_whatever_the_order() {
    for rules in [vec![type_rule(), id_rule()], vec![id_rule(), type_rule()]] {
        let mut root = StyledElement::from_dom(element(
            "body",
            vec![],
            vec![DOMContent::Element(element("div", vec![("id", "x")], vec![]))],
        ));
        root.apply_styles(&rules);
        assert!(is_keyword(child(&root, 0).styles.get("color"), "blue"));
    }
}

#[test]
fn inherited_properties_reach_children_only() {
    let mut root = StyledElement::from_dom(element(
        "div",
        vec![],
        vec![DOMContent::Element(element("span", vec![], vec![]))],
    ));
    let rules = vec![rule(
        vec![type_sel("div")],
        vec![("color", keyword("green")), ("width", Value::Number(100))],
    )];
    root.apply_styles(&rules);
    assert!(is_keyword(root.styles.get("color"), "green"));
    assert!(matches!(root.styles.get("width"), Some(Value::Number(100))));
    let span = child(&root, 0);
    assert!(is_keyword(span.styles.get("color"), "green"));
    assert!(span.styles.get("width").is_none());
}

#[test]
fn display_none_prunes_the_subtree() {
    let nav = element(
        "nav",
        vec![],
        vec![DOMContent::Element(element("a", vec![], vec![]))],
    );
    let main = element("main", vec![], vec![]);
    let mut root = StyledElement::from_dom(element(
        "body",
        vec![],
        vec![DOMContent::Element(nav), DOMContent::Element(main)],
    ));
    let rules = vec![rule(vec![type_sel("nav")], vec![("display", keyword("none"))])];
    root.apply_styles(&rules);
    assert_eq!(root.contents.len(), 1);
    assert_eq!(child(&root, 0).name, "main");
}

#[test]
fn cascade_runs_give_the_same_styles() {
    let build = || {
        StyledElement::from_dom(element(
            "div",
            vec![("class", "a")],
            vec![
                DOMContent::Element(element("p", vec![("id", "q")], vec![])),
                DOMContent::Text("hi".to_string()),
            ],
        ))
    };
    let rules = vec![
        rule(vec![type_sel("div")], vec![("color", keyword("red")), ("margin", Value::Number(1))]),
        rule(
            vec![Selector::Simple(SimpleSelector::Class("a".to_string()))],
            vec![("color", keyword("blue"))],
        ),
        rule(
            vec![Selector::Simple(SimpleSelector::ID("q".to_string()))],
            vec![("font-size", Value::Number(20))],
        ),
    ];
    let mut one = build();
    let mut two = build();
    one.apply_styles(&rules);
    two.apply_styles(&rules);
    for name in ["color", "margin", "font-size"] {
        assert_eq!(one.styles.get(name), two.styles.get(name));
        assert_eq!(child(&one, 0).styles.get(name), child(&two, 0).styles.get(name));
    }
    assert!(is_keyword(child(&one, 0).styles.get("color"), "blue"));
    assert!(matches!(child(&one, 0).styles.get("font-size"), Some(Value::Number(20))));
}

#[test]
fn excluded_elements_are_dropped() {
    let root = StyledElement::from_dom(element(
        "html",
        vec![],
        vec![
            DOMContent::Element(element("head", vec![], vec![])),
            DOMContent::Element(element("body", vec![], vec![])),
            DOMContent::Text("x".to_string()),
        ],
    ));
    assert_eq!(root.contents.len(), 2);
    assert_eq!(child(&root, 0).name, "body");
    assert!(browsah::style::element_is_excluded(&element("script", vec![], vec![])));
    assert!(browsah::style::is_inherited("font-size"));
    assert!(!browsah::style::is_inherited("width"));
}

#[test]
fn second_cascade_run_changes_nothing() {
    let mut root = StyledElement::from_dom(element(
        "div",
        vec![("class", "a")],
        vec![
            DOMContent::Element(element("p", vec![("id", "q")], vec![])),
            DOMContent::Element(element("nav", vec![], vec![])),
        ],
    ));
    let rules = vec![
        rule(vec![type_sel("div")], vec![("color", keyword("red"))]),
        rule(
            vec![Selector::Simple(SimpleSelector::Class("a".to_string()))],
            vec![("color", keyword("blue")), ("width", Value::Number(3))],
        ),
        rule(vec![type_sel("div")], vec![("color", keyword("green"))]),
        rule(vec![type_sel("nav")], vec![("display", keyword("none"))]),
    ];
    root.apply_styles(&rules);
    let names = ["color", "width"];
    let first: Vec<_> = names.iter().map(|n| root.styles.get(n).map(|v| v.deep_copy())).collect();
    let first_child: Vec<_> = names.iter().map(|n| child(&root, 0).styles.get(n).map(|v| v.deep_copy())).collect();
    assert_eq!(root.contents.len(), 1);
    root.apply_styles(&rules);
    assert_eq!(root.contents.len(), 1);
    let second: Vec<_> = names.iter().map(|n| root.styles.get(n).map(|v| v.deep_copy())).collect();
    let second_child: Vec<_> = names.iter().map(|n| child(&root, 0).styles.get(n).map(|v| v.deep_copy())).collect();
    assert_eq!(first, second);
    assert_eq!(first_child, second_child);
    assert!(is_keyword(root.styles.get("color"), "blue"));
}
