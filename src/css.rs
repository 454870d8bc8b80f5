//! Stylesheet values and selectors as produced by the stylesheet parser.
//!
//! Numeric values are whole numbers: the grammar that produces them accepts
//! digits only, so every number, percentage and length carries an integer.
use vstd::prelude::*;
use crate::px::{clamp, sat_mul};
use crate::text::{contains_str, str_eq};

verus! {

broadcast use vstd::std_specs::vec::group_vec_axioms;

/// A selector of a ruleset.
#[derive(Debug, PartialEq)]
pub enum Selector {
    Simple(SimpleSelector),
    Compound(Vec<SimpleSelector>),
    Combinator(Box<Selector>, Combinator, Box<Selector>),
}

/// How the two halves of a combinator selector relate.
#[derive(Debug, PartialEq, Eq, Clone, Copy)]
pub enum Combinator {
    /// `a b`
    Descendant,
    /// `a > b`
    Child,
    /// `a + b`
    NextSibling,
    /// `a ~ b`
    SubsequentSibling,
}

/// One simple selector.
#[derive(Debug, PartialEq)]
pub enum SimpleSelector {
    Type(String),
    Universal,
    Attribute(String),
    Class(String),
    PseudoClass(String),
    ID(String),
}

/// The forms of an attribute selector.
#[derive(Debug, PartialEq)]
pub enum AttributeSelector {
    /// `[att]`
    Has(String),
    /// `[att=val]`
    Equals(String, String),
    /// `[att~=val1 val2]`
    EqualsMany(String, Vec<String>),
    /// `[att|=val]`: `att` begins with `val-`
    Begins(String, String),
}

/// The unit of a length.
#[derive(Debug, PartialEq, Eq, Clone, Copy)]
pub enum Unit {
    Cm,
    Mm,
    Q,
    In,
    Pc,
    Pt,
    Px,
    Em,
    Ex,
    Ch,
    Rem,
    Lh,
    Vw,
    Vh,
    Vmin,
    Vmax,
}

/// An RGBA colour.
#[derive(Debug, PartialEq, Eq, Clone, Copy)]
pub struct ColorValue {
    pub r: u8,
    pub g: u8,
    pub b: u8,
    pub a: u8,
}

/// The operator that precedes a component of a multi-part value.
#[derive(Debug, PartialEq, Eq, Clone, Copy)]
pub enum Operator {
    Slash,
    Comma,
    Space,
    Equals,
}

/// A function call such as `rgb(1, 2, 3)`: its name and its arguments.
#[derive(Debug, PartialEq)]
pub struct FunctionValue(pub String, pub Vec<Value>);

/// A value made of several components, each after an optional operator.
#[derive(Debug, PartialEq)]
pub struct MultiValue(pub Vec<(Option<Operator>, Value)>);

/// The value of a declaration.
#[derive(Debug, PartialEq)]
pub enum Value {
    Keyword(String),
    String(String),
    Url(String),
    Number(i64),
    Percentage(i64),
    Length(i64, Unit),
    Color(ColorValue),
    Function(FunctionValue),
    Multiple(MultiValue),
}

/// `property: value`
#[derive(Debug, PartialEq)]
pub struct Declaration {
    pub name: String,
    pub value: Value,
}

/// A list of selectors and the declarations that they select for.
#[derive(Debug, PartialEq)]
pub struct Ruleset {
    pub selectors: Vec<Selector>,
    pub declarations: Vec<Declaration>,
}

/// An ordered list of rulesets.
#[derive(Debug, PartialEq)]
pub struct Stylesheet {
    pub rules: Vec<Ruleset>,
}

impl ColorValue {
    /// A colour from its four components `[r, g, b, a]`.
    pub fn new(val: &[u8]) -> (r: ColorValue)
        requires
            val@.len() == 4,
        ensures
            r == (ColorValue { r: val@[0], g: val@[1], b: val@[2], a: val@[3] }),
    {
        ColorValue { r: val[0], g: val[1], b: val[2], a: val[3] }
    }

    /// Opaque black.
    pub fn black() -> (r: ColorValue)
        ensures
            r == (ColorValue { r: 0, g: 0, b: 0, a: 255 }),
    {
        ColorValue { r: 0, g: 0, b: 0, a: 255 }
    }

    /// Opaque white.
    pub fn white() -> (r: ColorValue)
        ensures
            r == (ColorValue { r: 255, g: 255, b: 255, a: 255 }),
    {
        ColorValue { r: 255, g: 255, b: 255, a: 255 }
    }
}

/// The mathematical form of a [`Value`]: strings as character sequences and
/// lists as sequences.
pub enum ValueModel {
    Keyword(Seq<char>),
    Str(Seq<char>),
    Url(Seq<char>),
    Number(i64),
    Percentage(i64),
    Length(i64, Unit),
    Color(ColorValue),
    Function(Seq<char>, Seq<ValueModel>),
    Multiple(Seq<(Option<Operator>, ValueModel)>),
}

/// The model of a value.
pub open spec fn value_model(v: Value) -> ValueModel
    decreases v,
{
    match v {
        Value::Keyword(s) => ValueModel::Keyword(s@),
        Value::String(s) => ValueModel::Str(s@),
        Value::Url(s) => ValueModel::Url(s@),
        Value::Number(n) => ValueModel::Number(n),
        Value::Percentage(n) => ValueModel::Percentage(n),
        Value::Length(n, u) => ValueModel::Length(n, u),
        Value::Color(c) => ValueModel::Color(c),
        Value::Function(f) => ValueModel::Function(
            f.0@,
            Seq::new(
                f.1.len() as nat,
                |i: int|
                    if 0 <= i < f.1.len() {
                        value_model(f.1[i])
                    } else {
                        ValueModel::Number(0)
                    },
            ),
        ),
        Value::Multiple(m) => ValueModel::Multiple(
            Seq::new(
                m.0.len() as nat,
                |i: int|
                    if 0 <= i < m.0.len() {
                        (m.0[i].0, value_model(m.0[i].1))
                    } else {
                        (None, ValueModel::Number(0))
                    },
            ),
        ),
    }
}

impl View for Value {
    type V = ValueModel;

    open spec fn view(&self) -> ValueModel {
        value_model(*self)
    }
}

/// Whether `s` is one of the strings of `names`.
pub open spec fn listed(names: Seq<Seq<char>>, s: Seq<char>) -> bool {
    exists|i: int| 0 <= i < names.len() && names[i] == s
}

/// The keywords of the border styles.
pub open spec fn border_style_keywords() -> Seq<Seq<char>> {
    seq![
        "none"@,
        "hidden"@,
        "dotted"@,
        "dashed"@,
        "solid"@,
        "double"@,
        "groove"@,
        "ridge"@,
        "inset"@,
        "outset"@,
    ]
}

/// The names of the functions that produce a colour.
pub open spec fn color_functions() -> Seq<Seq<char>> {
    seq!["rgb"@, "rgba"@, "hsl"@, "hsla"@, "hwb"@]
}

/// A whole number brought into the range of a colour channel.
pub open spec fn channel(n: i64) -> u8 {
    if n < 0 {
        0
    } else if n > 255 {
        255
    } else {
        n as u8
    }
}

/// A whole number brought into the range of a colour channel.
pub fn to_channel(n: i64) -> (r: u8)
    ensures
        r == channel(n),
{
    if n < 0 {
        0
    } else if n > 255 {
        255
    } else {
        n as u8
    }
}

/// Whether argument `i` of `f` is a number.
pub open spec fn number_arg(f: FunctionValue, i: int) -> bool {
    0 <= i < f.1.len() && f.1[i] is Number
}

/// The channel that argument `i` of `f` gives.
pub open spec fn arg_channel(f: FunctionValue, i: int) -> u8 {
    channel(f.1[i]->Number_0)
}

/// Whether `f` can be turned into a value: a colour function needs numbers
/// for its channels, three for `rgb` and four for `rgba`.
pub open spec fn function_convertible(f: FunctionValue) -> bool {
    &&& f.0@ == "rgb"@ ==> number_arg(f, 0) && number_arg(f, 1) && number_arg(f, 2)
    &&& f.0@ == "rgba"@ ==> number_arg(f, 0) && number_arg(f, 1) && number_arg(f, 2)
        && number_arg(f, 3)
}

/// The value that a function call stands for.
pub open spec fn function_value_model(f: FunctionValue) -> ValueModel {
    if f.0@ == "rgb"@ {
        ValueModel::Color(
            ColorValue {
                r: arg_channel(f, 0),
                g: arg_channel(f, 1),
                b: arg_channel(f, 2),
                a: 255,
            },
        )
    } else if f.0@ == "rgba"@ {
        ValueModel::Color(
            ColorValue {
                r: arg_channel(f, 0),
                g: arg_channel(f, 1),
                b: arg_channel(f, 2),
                a: arg_channel(f, 3),
            },
        )
    } else {
        Value::Function(f)@
    }
}

/// The value that a keyword stands for.
pub open spec fn keyword_value_model(kw: Seq<char>) -> ValueModel {
    if kw == "black"@ {
        ValueModel::Color(ColorValue { r: 0, g: 0, b: 0, a: 255 })
    } else {
        ValueModel::Keyword(kw)
    }
}

/// The keywords that a border width may take.
pub open spec fn width_keywords() -> Seq<Seq<char>> {
    seq!["thin"@, "medium"@, "thick"@]
}

/// The size in pixels that a value stands for, relative sizes taken against
/// `font_size`; `None` where the value is no length.
pub open spec fn px_model(v: ValueModel, font_size: int) -> Option<i64> {
    match v {
        ValueModel::Number(n) => Some(n),
        ValueModel::Length(n, Unit::Px) => Some(n),
        ValueModel::Length(n, Unit::Em) => Some(clamp(n * font_size) as i64),
        ValueModel::Percentage(n) => Some(clamp(n * font_size) as i64),
        _ => None,
    }
}

/// Whether a value may stand as the width of a border: a number, a length or
/// a width keyword.
pub open spec fn is_width_model(v: ValueModel) -> bool {
    match v {
        ValueModel::Keyword(kw) => listed(width_keywords(), kw),
        ValueModel::Number(_) => true,
        ValueModel::Length(_, _) => true,
        _ => false,
    }
}

/// Whether a value is a border style keyword.
pub open spec fn is_border_style_model(v: ValueModel) -> bool {
    v is Keyword && listed(border_style_keywords(), v->Keyword_0)
}

/// Whether a value is a colour or a call of a colour function.
pub open spec fn is_color_model(v: ValueModel) -> bool {
    match v {
        ValueModel::Color(_) => true,
        ValueModel::Function(name, _) => listed(color_functions(), name),
        _ => false,
    }
}

impl Value {
    /// Whether this value is the keyword `kw`.
    pub open spec fn is_keyword_spec(&self, kw: Seq<char>) -> bool {
        self is Keyword && self->Keyword_0@ == kw
    }

    /// A copy of this value.
    pub fn deep_copy(&self) -> (r: Value)
        ensures
            r@ == self@,
        decreases self,
    {
        match self {
            Value::Keyword(s) => Value::Keyword(s.clone()),
            Value::String(s) => Value::String(s.clone()),
            Value::Url(s) => Value::Url(s.clone()),
            Value::Number(n) => Value::Number(*n),
            Value::Percentage(n) => Value::Percentage(*n),
            Value::Length(n, u) => Value::Length(*n, *u),
            Value::Color(c) => Value::Color(*c),
            Value::Function(f) => {
                let mut args: Vec<Value> = Vec::new();
                let mut i: usize = 0;
                while i < f.1.len()
                    invariant
                        self is Function,
                        self->Function_0 == *f,
                        0 <= i <= f.1@.len(),
                        args@.len() == i,
                        forall|j: int| 0 <= j < i ==> (#[trigger] args@[j])@ == f.1@[j]@,
                    decreases f.1@.len() - i,
                {
                    proof {
                        let fv = self->Function_0;
                        assert(decreases_to!(*self => fv));
                        assert(decreases_to!(fv => fv.1));
                        assert(fv == *f);
                        vstd::std_specs::vec::axiom_vec_index_decreases(fv.1, i as int);
                    }
                    let a = f.1[i].deep_copy();
                    args.push(a);
                    i += 1;
                }
                let r = Value::Function(FunctionValue(f.0.clone(), args));
                assert(r@ == self@) by {
                    if let ValueModel::Function(n, xs) = r@ {
                        if let ValueModel::Function(m, ys) = self@ {
                            assert(xs =~= ys);
                        }
                    }
                }
                r
            },
            Value::Multiple(m) => {
                let mut parts: Vec<(Option<Operator>, Value)> = Vec::new();
                let mut i: usize = 0;
                while i < m.0.len()
                    invariant
                        self is Multiple,
                        self->Multiple_0 == *m,
                        0 <= i <= m.0@.len(),
                        parts@.len() == i,
                        forall|j: int|
                            0 <= j < i ==> (#[trigger] parts@[j]).0 == m.0@[j].0 && parts@[j].1@
                                == m.0@[j].1@,
                    decreases m.0@.len() - i,
                {
                    proof {
                        let mv = self->Multiple_0;
                        assert(decreases_to!(*self => mv));
                        assert(decreases_to!(mv => mv.0));
                        assert(mv == *m);
                        vstd::std_specs::vec::axiom_vec_index_decreases(mv.0, i as int);
                        assert(decreases_to!(mv.0[i as int] => mv.0[i as int].1));
                    }
                    let a = m.0[i].1.deep_copy();
                    parts.push((m.0[i].0, a));
                    i += 1;
                }
                let r = Value::Multiple(MultiValue(parts));
                assert(r@ == self@) by {
                    if let ValueModel::Multiple(xs) = r@ {
                        if let ValueModel::Multiple(ys) = self@ {
                            assert(xs =~= ys);
                        }
                    }
                }
                r
            },
        }
    }

    /// Whether this value is the keyword `kw`.
    pub fn is_keyword(&self, kw: &str) -> (r: bool)
        ensures
            r == self.is_keyword_spec(kw@),
    {
        match self {
            Value::Keyword(k) => str_eq(k.as_str(), kw),
            _ => false,
        }
    }

    /// The colour this value holds, if it holds one.
    pub fn try_to_color(&self) -> (r: Option<ColorValue>)
        ensures
            r == (match *self {
                Value::Color(c) => Some(c),
                _ => None,
            }),
    {
        match self {
            Value::Color(c) => Some(*c),
            _ => None,
        }
    }

    /// Checks if this is a valid border style keyword.
    pub fn is_border_style(&self) -> (r: bool)
        ensures
            r == is_border_style_model(self@),
    {
        match self {
            Value::Keyword(kw) => {
                let names: [&str; 10] = [
                    "none",
                    "hidden",
                    "dotted",
                    "dashed",
                    "solid",
                    "double",
                    "groove",
                    "ridge",
                    "inset",
                    "outset",
                ];
                let r = contains_str(&names, kw.as_str());
                proof {
                    assert(names@.map_values(|n: &str| n@) =~= border_style_keywords());
                }
                r
            },
            _ => false,
        }
    }

    /// Checks if this is a colour or a call of a colour function.
    pub fn is_color(&self) -> (r: bool)
        ensures
            r == is_color_model(self@),
    {
        match self {
            Value::Color(_) => true,
            Value::Function(f) => {
                let names: [&str; 5] = ["rgb", "rgba", "hsl", "hsla", "hwb"];
                let r = contains_str(&names, f.0.as_str());
                proof {
                    assert(names@.map_values(|n: &str| n@) =~= color_functions());
                }
                r
            },
            _ => false,
        }
    }

    /// Attempts to convert this value to a size in pixels.
    pub fn try_to_px(&self, font_size: i64) -> (r: Option<i64>)
        ensures
            r == px_model(self@, font_size as int),
    {
        match self {
            Value::Number(n) => Some(*n),
            Value::Length(n, Unit::Px) => Some(*n),
            Value::Length(n, Unit::Em) => Some(sat_mul(*n, font_size)),
            Value::Percentage(n) => Some(sat_mul(*n, font_size)),
            _ => None,
        }
    }

    /// Checks if this is a valid value for a border width: a number, a length
    /// or one of the width keywords.
    pub fn is_width(&self) -> (r: bool)
        ensures
            r == is_width_model(self@),
    {
        match self {
            Value::Keyword(kw) => {
                let names: [&str; 3] = ["thin", "medium", "thick"];
                let r = contains_str(&names, kw.as_str());
                proof {
                    assert(names@.map_values(|n: &str| n@) =~= width_keywords());
                }
                r
            },
            Value::Number(_) => true,
            Value::Length(_, _) => true,
            _ => false,
        }
    }
}

impl MultiValue {
    /// Whether every operator between the components is a space.
    pub open spec fn is_space_separated_spec(&self) -> bool {
        forall|i: int|
            0 <= i < self.0.len() ==> (#[trigger] self.0[i]).0 is None || self.0[i].0
                == Some(Operator::Space)
    }

    /// Checks that the components are separated by spaces only.
    pub fn is_space_separated(&self) -> (r: bool)
        ensures
            r == self.is_space_separated_spec(),
    {
        let mut i: usize = 0;
        while i < self.0.len()
            invariant
                0 <= i <= self.0@.len(),
                forall|j: int|
                    0 <= j < i ==> (#[trigger] self.0@[j]).0 is None || self.0@[j].0 == Some(
                        Operator::Space,
                    ),
            decreases self.0@.len() - i,
        {
            match self.0[i].0 {
                Some(Operator::Space) => {},
                None => {},
                _ => {
                    return false;
                },
            }
            i += 1;
        }
        true
    }

    /// The components `values`, separated by spaces.
    pub fn new_space_seperated(values: &[&Value]) -> (r: MultiValue)
        requires
            values@.len() >= 1,
        ensures
            r.0@.len() == values@.len(),
            r.0@[0].0 is None,
            forall|i: int| 1 <= i < values@.len() ==> (#[trigger] r.0@[i]).0 == Some(Operator::Space),
            forall|i: int| 0 <= i < values@.len() ==> (#[trigger] r.0@[i]).1@ == values@[i]@,
    {
        let mut v: Vec<(Option<Operator>, Value)> = Vec::new();
        v.push((None, values[0].deep_copy()));
        let mut i: usize = 1;
        while i < values.len()
            invariant
                1 <= i <= values@.len(),
                v@.len() == i,
                v@[0].0 is None,
                forall|j: int| 1 <= j < i ==> (#[trigger] v@[j]).0 == Some(Operator::Space),
                forall|j: int| 0 <= j < i ==> (#[trigger] v@[j]).1@ == values@[j]@,
            decreases values@.len() - i,
        {
            v.push((Some(Operator::Space), values[i].deep_copy()));
            i += 1;
        }
        MultiValue(v)
    }
}

impl Declaration {
    /// The declaration `name: value`.
    pub fn new(name: &str, value: Value) -> (r: Declaration)
        ensures
            r.name@ == name@,
            r.value == value,
    {
        Declaration { name: name.to_owned(), value }
    }
}

/// Takes a keyword and returns the value it stands for: a colour for a
/// colour keyword, else the keyword itself.
pub fn keyword_to_value(kw: &str) -> (r: Value)
    ensures
        r@ == keyword_value_model(kw@),
{
    if str_eq(kw, "black") {
        Value::Color(ColorValue::black())
    } else {
        Value::Keyword(kw.to_owned())
    }
}

/// Takes a function call and returns the value it stands for: a colour for
/// `rgb` and `rgba`, else the call itself.
pub fn function_to_value(func: FunctionValue) -> (r: Value)
    requires
        function_convertible(func),
    ensures
        r@ == function_value_model(func),
{
    if str_eq(func.0.as_str(), "rgb") {
        let r = to_channel(func.1[0].number_part());
        let g = to_channel(func.1[1].number_part());
        let b = to_channel(func.1[2].number_part());
        Value::Color(ColorValue { r, g, b, a: 255 })
    } else if str_eq(func.0.as_str(), "rgba") {
        let r = to_channel(func.1[0].number_part());
        let g = to_channel(func.1[1].number_part());
        let b = to_channel(func.1[2].number_part());
        let a = to_channel(func.1[3].number_part());
        Value::Color(ColorValue { r, g, b, a })
    } else {
        Value::Function(func)
    }
}

impl Value {
    /// The number that a `Number` value holds.
    fn number_part(&self) -> (r: i64)
        requires
            self is Number,
        ensures
            r == self->Number_0,
    {
        match self {
            Value::Number(n) => *n,
            _ => 0,
        }
    }
}

} // verus!
