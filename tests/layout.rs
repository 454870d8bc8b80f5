use browsah::css::{Declaration, MultiValue, Operator, Ruleset, Selector, SimpleSelector, Unit, Value};
use browsah::dom::{DOMContent, DOMElement};
use browsah::layout::{
    build_layout_tree, calculate_font_size, create_layout, resolve_block_widths, BoxContentType,
    BoxType, Dimensions, EdgeSizes, LayoutBox, Rect,
};
use browsah::properties::{get_border, get_margins, get_padding, to_padding_sizes};
use browsah::style::{Specificity, StyleMap, StyledElement};

fn no_text(_: &str, _: i64, _: i64) -> (i64, i64) {
    (0, 0)
}

fn styled(children: Vec<DOMContent>, decls: Vec<(&str, Value)>) -> StyledElement {
    let mut root = StyledElement::from_dom(DOMElement::new("div", None, children));
    let rules = vec![Ruleset {
        selectors: vec![Selector::Simple(SimpleSelector::Type("div".to_string()))],
        declarations: decls.into_iter().map(|(n, v)| Declaration::new(n, v)).collect(),
    }];
    root.apply_styles(&rules);
    root
}

fn auto() -> Value {
    Value::Keyword("auto".to_string())
}

#[test]
fn auto_width_fills_the_container() {
    let root = styled(vec![], vec![]);
    let b = create_layout(&root, (200, 100), &no_text);
    assert_eq!(b.dimensions.content.width, 200);
    assert_eq!(b.dimensions.margin.left, 0);
    assert_eq!(b.dimensions.margin.right, 0);
}

#[test]
fn symmetric_auto_margins() {
    let root = styled(
        vec![],
        vec![
            ("width", Value::Length(100, Unit::Px)),
            ("margin-left", auto()),
            ("margin-right", auto()),
        ],
    );
    let b = create_layout(&root, (200, 100), &no_text);
    assert_eq!(b.dimensions.margin.left, 50);
    assert_eq!(b.dimensions.margin.right, 50);
    assert_eq!(b.dimensions.content.width, 100);
    assert_eq!(b.dimensions.content.x, 50);
}

#[test]
fn over_constrained_width_goes_to_right_margin() {
    let root = styled(vec![], vec![("width", Value::Length(300, Unit::Px))]);
    let b = create_layout(&root, (200, 100), &no_text);
    assert_eq!(b.dimensions.content.width, 300);
    assert_eq!(b.dimensions.margin.right, -100);
    assert_eq!(b.dimensions.margin.left, 0);
}

#[test]
fn width_cases() {
    let n = |x: i64| Value::Number(x);
    let z = n(0);
    // set width, one auto margin takes the rest
    assert_eq!(resolve_block_widths(200, 16, &n(50), &z, &auto(), &z, &z, &n(10), &n(10)), (50, 0, 130));
    assert_eq!(resolve_block_widths(200, 16, &n(50), &auto(), &z, &z, &z, &z, &z), (50, 150, 0));
    // auto width with too wide edges: zero width, the right margin takes the rest
    assert_eq!(resolve_block_widths(100, 16, &auto(), &n(80), &n(40), &z, &z, &z, &z), (0, 80, 20));
    // too wide with auto margins: they count as zero
    assert_eq!(resolve_block_widths(100, 16, &n(150), &auto(), &auto(), &z, &z, &z, &z), (150, 0, -50));
    // an odd remainder: the odd pixel goes right
    assert_eq!(resolve_block_widths(101, 16, &n(50), &auto(), &auto(), &z, &z, &z, &z), (50, 25, 26));
    // em widths follow the font size
    assert_eq!(resolve_block_widths(200, 10, &Value::Length(5, Unit::Em), &z, &z, &z, &z, &z, &z), (50, 0, 150));
}

#[test]
fn children_stack_and_height_grows() {
    let child = || DOMContent::Element(DOMElement::new("p", None, vec![]));
    let mut root = StyledElement::from_dom(DOMElement::new("div", None, vec![child(), child()]));
    let rules = vec![
        Ruleset {
            selectors: vec![Selector::Simple(SimpleSelector::Type("p".to_string()))],
            declarations: vec![
                Declaration::new("height", Value::Number(30)),
                Declaration::new("margin", Value::Number(5)),
            ],
        },
        Ruleset {
            selectors: vec![Selector::Simple(SimpleSelector::Type("div".to_string()))],
            declarations: vec![Declaration::new("padding", Value::Number(2))],
        },
    ];
    root.apply_styles(&rules);
    let b = create_layout(&root, (300, 100), &no_text);
    assert_eq!(b.dimensions.content.x, 2);
    assert_eq!(b.dimensions.content.y, 2);
    assert_eq!(b.dimensions.content.width, 296);
    assert_eq!(b.contents.len(), 2);
    let first = &b.contents[0];
    let second = &b.contents[1];
    assert_eq!(first.dimensions.content.y, 7);
    assert_eq!(first.dimensions.content.x, 7);
    assert_eq!(first.dimensions.content.width, 286);
    assert_eq!(second.dimensions.content.y, 47);
    assert_eq!(b.dimensions.content.height, 80);
    assert_eq!(b.dimensions.margin_box().height, 84);
}

#[test]
fn text_is_measured_and_inline_goes_into_anonymous_boxes() {
    let mut root = StyledElement::from_dom(DOMElement::new(
        "div",
        None,
        vec![
            DOMContent::Text("hello".to_string()),
            DOMContent::Element(DOMElement::new("span", None, vec![])),
            DOMContent::Element(DOMElement::new("em", None, vec![])),
            DOMContent::Element(DOMElement::new("p", None, vec![])),
        ],
    ));
    let rules = vec![Ruleset {
        selectors: vec![
            Selector::Simple(SimpleSelector::Type("span".to_string())),
            Selector::Simple(SimpleSelector::Type("em".to_string())),
        ],
        declarations: vec![Declaration::new("display", Value::Keyword("inline".to_string()))],
    }];
    root.apply_styles(&rules);
    let tree = build_layout_tree(&root);
    assert_eq!(tree.contents.len(), 3);
    assert_eq!(tree.contents[0].box_content_type, BoxContentType::Text("hello".to_string()));
    assert_eq!(tree.contents[1].box_type, BoxType::Anonymous);
    assert_eq!(tree.contents[1].contents.len(), 2);
    assert_eq!(tree.contents[2].box_type, BoxType::Block);

    let measure = |s: &str, size: i64, max: i64| (s.len() as i64 * size, size + max / 1000);
    let b = create_layout(&root, (1000, 100), &measure);
    let text = &b.contents[0];
    assert_eq!(text.dimensions.content.width, 5 * 16);
    assert_eq!(text.dimensions.content.height, 17);
    assert_eq!(b.contents[1].dimensions.content.y, 17);
}

#[test]
fn font_sizes() {
    let mut m = StyleMap::new();
    assert_eq!(calculate_font_size(&m, 16), 16);
    m.insert("font-size", Value::Length(2, Unit::Em), Specificity(0, 0, 0, 1));
    assert_eq!(calculate_font_size(&m, 16), 32);
    m.insert("font-size", Value::Number(12), Specificity(0, 0, 0, 1));
    assert_eq!(calculate_font_size(&m, 16), 12);
    m.insert("font-size", Value::Keyword("large".to_string()), Specificity(0, 0, 0, 1));
    assert_eq!(calculate_font_size(&m, 16), 16);
}

#[test]
fn box_geometry() {
    let d = Dimensions {
        content: Rect { x: 10, y: 10, width: 100, height: 50 },
        padding: EdgeSizes { left: 1, right: 2, top: 3, bottom: 4 },
        border: EdgeSizes { left: 1, right: 1, top: 1, bottom: 1 },
        margin: EdgeSizes { left: 5, right: 5, top: 5, bottom: 5 },
    };
    assert_eq!(d.padding_box(), Rect { x: 9, y: 7, width: 103, height: 57 });
    assert_eq!(d.border_box(), Rect { x: 8, y: 6, width: 105, height: 59 });
    assert_eq!(d.margin_box(), Rect { x: 3, y: 1, width: 115, height: 69 });
    let b = LayoutBox::new(BoxType::Anonymous, 16);
    assert_eq!(b.font_size, 16);
    assert!(b.contents.is_empty());
}

#[test]
fn shorthand_sides() {
    let n = |x: i64| Value::Number(x);
    let two = Value::Multiple(MultiValue(vec![(None, n(1)), (Some(Operator::Space), n(2))]));
    assert_eq!(to_padding_sizes(&two), Some((n(1), n(2), n(1), n(2))));
    let three = Value::Multiple(MultiValue(vec![
        (None, n(1)),
        (Some(Operator::Space), n(2)),
        (Some(Operator::Space), n(3)),
    ]));
    assert_eq!(to_padding_sizes(&three), Some((n(1), n(2), n(3), n(2))));
    let comma = Value::Multiple(MultiValue(vec![(None, n(1)), (Some(Operator::Comma), n(2))]));
    assert_eq!(to_padding_sizes(&comma), None);
    assert_eq!(to_padding_sizes(&Value::String("x".to_string())), None);

    let mut m = StyleMap::new();
    m.insert("padding", two, Specificity(0, 0, 0, 1));
    m.insert("padding-left", n(7), Specificity(0, 0, 0, 1));
    let p = get_padding(&m);
    assert_eq!((p.top, p.right, p.bottom, p.left), (n(1), n(2), n(1), n(7)));
    let mg = get_margins(&m);
    assert_eq!((mg.top, mg.right, mg.bottom, mg.left), (n(0), n(0), n(0), n(0)));

    let border = Value::Multiple(MultiValue(vec![
        (None, Value::Keyword("solid".to_string())),
        (Some(Operator::Space), Value::Length(3, Unit::Px)),
    ]));
    m.insert("border", border, Specificity(0, 0, 0, 1));
    m.insert("border-top", n(9), Specificity(0, 0, 0, 1));
    let b = get_border(&m);
    // widths come only from border-width and border-<side>-width
    assert_eq!(b.left.width, n(0));
    assert_eq!(b.left.style, Value::Keyword("solid".to_string()));
    assert_eq!(b.top.width, n(0));
    assert_eq!(b.top.style, n(0));
    let (w, st, _) = browsah::properties::process_border(m.get("border").unwrap());
    assert_eq!(w, Some(Value::Length(3, Unit::Px)));
    assert_eq!(st, Some(Value::Keyword("solid".to_string())));
}

#[test]
fn border_width_longhands() {
    let mut m = StyleMap::new();
    m.insert("border-left", Value::Number(7), Specificity(0, 0, 0, 1));
    assert_eq!(get_border(&m).left.width, Value::Number(0));
    m.insert("border-left-width", Value::Number(5), Specificity(0, 0, 0, 1));
    let b = get_border(&m);
    assert_eq!(b.left.width, Value::Number(5));
    assert_eq!(b.right.width, Value::Number(0));
    m.insert("border-width", Value::Number(2), Specificity(0, 0, 0, 1));
    m.insert("border-top", Value::Number(9), Specificity(0, 0, 0, 1));
    let b = get_border(&m);
    assert_eq!(b.left.width, Value::Number(5));
    assert_eq!(b.right.width, Value::Number(2));
    assert_eq!(b.top.width, Value::Number(2));
    assert_eq!(b.bottom.width, Value::Number(2));
}

#[test]
fn border_widths_take_part_in_layout() {
    let root = styled(
        vec![],
        vec![("border-top-width", Value::Number(3)), ("border-left-width", Value::Number(4))],
    );
    let b = create_layout(&root, (200, 100), &no_text);
    assert_eq!(b.dimensions.border.top, 3);
    assert_eq!(b.dimensions.border.left, 4);
    assert_eq!(b.dimensions.content.y, 3);
    assert_eq!(b.dimensions.content.x, 4);
    assert_eq!(b.dimensions.content.width, 196);
}

#[test]
fn height_that_is_no_length_keeps_the_computed_height() {
    let mut root = StyledElement::from_dom(DOMElement::new(
        "div",
        None,
        vec![DOMContent::Element(DOMElement::new("p", None, vec![]))],
    ));
    let rules = vec![
        Ruleset {
            selectors: vec![Selector::Simple(SimpleSelector::Type("p".to_string()))],
            declarations: vec![Declaration::new("height", Value::Number(50))],
        },
        Ruleset {
            selectors: vec![Selector::Simple(SimpleSelector::Type("div".to_string()))],
            declarations: vec![Declaration::new("height", auto())],
        },
    ];
    root.apply_styles(&rules);
    let b = create_layout(&root, (200, 100), &no_text);
    assert_eq!(b.contents[0].dimensions.content.height, 50);
    assert_eq!(b.dimensions.content.height, 50);
}

#[test]
fn text_leaves_take_no_vertical_edges() {
    let root = styled(
        vec![DOMContent::Text("abc".to_string())],
        vec![
            ("margin", Value::Number(4)),
            ("padding", Value::Number(3)),
            ("height", Value::Number(90)),
        ],
    );
    let measure = |_: &str, _: i64, _: i64| (10, 12);
    let b = create_layout(&root, (200, 100), &measure);
    let t = &b.contents[0];
    assert_eq!(t.dimensions.margin.top, 0);
    assert_eq!(t.dimensions.margin.bottom, 0);
    assert_eq!(t.dimensions.padding.top, 0);
    assert_eq!(t.dimensions.padding.bottom, 0);
    assert_eq!(t.dimensions.margin.right, 0);
    assert_eq!(t.dimensions.content.height, 12);
    assert_eq!(t.dimensions.content.width, 10);
    assert_eq!(t.dimensions.content.y, 7);
    assert_eq!(b.dimensions.content.height, 90);
}
