use browsah::css::{
    function_to_value, keyword_to_value, ColorValue, FunctionValue, MultiValue, Operator, Unit, Value,
};
use browsah::parsing::string;

#[test]
fn parsing_test_string() {
    let i = r#""Hello, world""#;
    let target = ("", "Hello, world".to_string());
    assert_eq!(string(i).unwrap(), target);

    let i = "'Hello, world'";
    let target = ("", "Hello, world".to_string());
    assert_eq!(string(i).unwrap(), target);

    let i = r#""Hello\nworld""#;
    let target = ("", "Hello\\nworld".to_string());
    assert_eq!(string(i).unwrap(), target);
}

#[test]
fn spec_test_string() {
    let i = r#""Hello, world""#;
    let target = ("", "Hello, world".to_string());
    assert_eq!(string(i).unwrap(), target);

    let i = "'Hello, world'";
    let target = ("", "Hello, world".to_string());
    assert_eq!(string(i).unwrap(), target);

    let i = r#""Hello\nworld""#;
    let target = ("", "Hello\\nworld".to_string());
    assert_eq!(string(i).unwrap(), target);
}

#[test]
fn string_rejects_bad_input() {
    assert_eq!(string(r#""abc"; rest"#), Some(("; rest", "abc".to_string())));
    assert_eq!(string(r#"'it"s'"#), Some(("", "it\"s".to_string())));
    assert_eq!(string("\"unterminated"), None);
    assert_eq!(string("\"line\nbreak\""), None);
    assert_eq!(string(r#""bad\tescape""#), None);
    assert_eq!(string("plain"), None);
    assert_eq!(string(""), None);
}

#[test]
fn px_conversion() {
    assert_eq!(Value::Number(5).try_to_px(16), Some(5));
    assert_eq!(Value::Length(5, Unit::Px).try_to_px(16), Some(5));
    assert_eq!(Value::Length(2, Unit::Em).try_to_px(16), Some(32));
    assert_eq!(Value::Percentage(3).try_to_px(10), Some(30));
    assert_eq!(Value::Length(2, Unit::Cm).try_to_px(16), None);
    assert_eq!(Value::Keyword("auto".to_string()).try_to_px(16), None);
    assert_eq!(Value::Length(i64::MAX, Unit::Em).try_to_px(2), Some(i64::MAX));
}

#[test]
fn value_classes() {
    assert!(Value::Keyword("thin".to_string()).is_width());
    assert!(Value::Length(1, Unit::Px).is_width());
    assert!(!Value::Keyword("solid".to_string()).is_width());
    assert!(Value::Keyword("solid".to_string()).is_border_style());
    assert!(!Value::Number(1).is_border_style());
    assert!(Value::Color(ColorValue::black()).is_color());
    assert!(Value::Function(FunctionValue("rgb".to_string(), vec![])).is_color());
    assert!(!Value::Function(FunctionValue("calc".to_string(), vec![])).is_color());
    assert_eq!(Value::Color(ColorValue::white()).try_to_color(), Some(ColorValue::white()));
    assert_eq!(Value::Number(1).try_to_color(), None);
}

#[test]
fn colours() {
    let c = ColorValue::new(&[1, 2, 3, 4]);
    assert_eq!(c, ColorValue { r: 1, g: 2, b: 3, a: 4 });
    assert_eq!(ColorValue::black(), ColorValue { r: 0, g: 0, b: 0, a: 255 });
    assert_eq!(ColorValue::white(), ColorValue { r: 255, g: 255, b: 255, a: 255 });
    assert_eq!(keyword_to_value("black"), Value::Color(ColorValue::black()));
    assert_eq!(keyword_to_value("auto"), Value::Keyword("auto".to_string()));
    let rgb = FunctionValue(
        "rgb".to_string(),
        vec![Value::Number(197), Value::Number(93), Value::Number(300)],
    );
    assert_eq!(
        function_to_value(rgb),
        Value::Color(ColorValue { r: 197, g: 93, b: 255, a: 255 })
    );
    let rgba = FunctionValue(
        "rgba".to_string(),
        vec![Value::Number(1), Value::Number(2), Value::Number(3), Value::Number(-4)],
    );
    assert_eq!(function_to_value(rgba), Value::Color(ColorValue { r: 1, g: 2, b: 3, a: 0 }));
    let other = FunctionValue("hsl".to_string(), vec![Value::Number(1)]);
    assert_eq!(
        function_to_value(other),
        Value::Function(FunctionValue("hsl".to_string(), vec![Value::Number(1)]))
    );
}

#[test]
fn multi_values() {
    let a = Value::Number(1);
    let b = Value::Keyword("auto".to_string());
    let m = MultiValue::new_space_seperated(&[&a, &b]);
    assert_eq!(m.0, vec![(None, Value::Number(1)), (Some(Operator::Space), b)]);
    assert!(m.is_space_separated());
    let c = MultiValue(vec![(None, Value::Number(1)), (Some(Operator::Comma), Value::Number(2))]);
    assert!(!c.is_space_separated());
    let v = Value::Multiple(c);
    assert_eq!(v.deep_copy(), v);
}
