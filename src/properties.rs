//! The box properties of a style map: padding, margins and borders, each
//! resolved from its shorthand and its per-side properties.
use vstd::prelude::*;
use crate::css::{
    is_border_style_model, is_color_model, is_width_model, ColorValue, MultiValue, Operator, Value,
    ValueModel,
};
use crate::style::{StyleMap, StyleModel};
use crate::text::str_eq;

verus! {

broadcast use vstd::std_specs::vec::group_vec_axioms;

/// Four values, for the top, right, bottom and left sides.
pub type SidesModel = (ValueModel, ValueModel, ValueModel, ValueModel);

/// A border side as models: width, style and colour.
pub type BorderSideModel = (ValueModel, ValueModel, ValueModel);

/// Whether every operator among `parts` is a space.
pub open spec fn space_separated(parts: Seq<(Option<Operator>, ValueModel)>) -> bool {
    forall|i: int|
        0 <= i < parts.len() ==> (#[trigger] parts[i]).0 is None || parts[i].0 == Some(
            Operator::Space,
        )
}

/// The four sides that a `padding` or `margin` value gives: one value for
/// all, two for (top and bottom, left and right), three for (top, left and
/// right, bottom), four for each in turn.
pub open spec fn side_sizes(v: ValueModel) -> Option<SidesModel> {
    match v {
        ValueModel::Number(_) => Some((v, v, v, v)),
        ValueModel::Length(_, _) => Some((v, v, v, v)),
        ValueModel::Keyword(k) => if k == "auto"@ {
            Some((v, v, v, v))
        } else {
            None
        },
        ValueModel::Multiple(p) => if !space_separated(p) {
            None
        } else if p.len() == 1 {
            Some((p[0].1, p[0].1, p[0].1, p[0].1))
        } else if p.len() == 2 {
            Some((p[0].1, p[1].1, p[0].1, p[1].1))
        } else if p.len() == 3 {
            Some((p[0].1, p[1].1, p[2].1, p[1].1))
        } else if p.len() == 4 {
            Some((p[0].1, p[1].1, p[2].1, p[3].1))
        } else {
            None
        },
        _ => None,
    }
}

/// The value of `key` in `m`, or `default`.
pub open spec fn value_or(m: StyleModel, key: Seq<char>, default: ValueModel) -> ValueModel {
    if m.contains_key(key) {
        m[key].0
    } else {
        default
    }
}

/// The four sides from the shorthand `short` (zero where it is missing or
/// gives no sides), each replaced by its own property where that is set.
pub open spec fn sides_model(
    m: StyleModel,
    short: Seq<char>,
    top: Seq<char>,
    right: Seq<char>,
    bottom: Seq<char>,
    left: Seq<char>,
) -> SidesModel {
    let zero = ValueModel::Number(0);
    let base = if m.contains_key(short) && side_sizes(m[short].0) is Some {
        side_sizes(m[short].0)->Some_0
    } else {
        (zero, zero, zero, zero)
    };
    (value_or(m, top, base.0), value_or(m, right, base.1), value_or(m, bottom, base.2), value_or(m, left, base.3))
}

/// The padding of each side.
pub open spec fn padding_model(m: StyleModel) -> SidesModel {
    sides_model(m, "padding"@, "padding-top"@, "padding-right"@, "padding-bottom"@, "padding-left"@)
}

/// The margin of each side.
pub open spec fn margin_model(m: StyleModel) -> SidesModel {
    sides_model(m, "margin"@, "margin-top"@, "margin-right"@, "margin-bottom"@, "margin-left"@)
}

/// The first component of `parts` that `p` holds of.
pub open spec fn first_where(parts: Seq<(Option<Operator>, ValueModel)>, p: spec_fn(ValueModel) -> bool) -> Option<ValueModel>
    decreases parts.len(),
{
    if parts.len() == 0 {
        None
    } else if p(parts[0].1) {
        Some(parts[0].1)
    } else {
        first_where(parts.drop_first(), p)
    }
}

/// The width, style and colour that a `border` value names, in any order.
pub open spec fn border_parts(v: ValueModel) -> (Option<ValueModel>, Option<ValueModel>, Option<ValueModel>) {
    match v {
        ValueModel::Multiple(p) => if space_separated(p) {
            (
                first_where(p, |x: ValueModel| is_width_model(x)),
                first_where(p, |x: ValueModel| is_border_style_model(x)),
                first_where(p, |x: ValueModel| is_color_model(x)),
            )
        } else {
            (None, None, None)
        },
        _ => (None, None, None),
    }
}

/// A border side with no width, no style and a black colour.
pub open spec fn default_side() -> BorderSideModel {
    (ValueModel::Number(0), ValueModel::Number(0), ValueModel::Color(ColorValue { r: 0, g: 0, b: 0, a: 255 }))
}

/// The border side that a `border-<side>` value gives: width, style and
/// colour in that order, each missing one as in the default side.
pub open spec fn side_model(v: ValueModel) -> BorderSideModel {
    let d = default_side();
    match v {
        ValueModel::Multiple(p) => if !space_separated(p) || p.len() == 0 {
            d
        } else if p.len() == 1 {
            (p[0].1, d.1, d.2)
        } else if p.len() == 2 {
            (p[0].1, p[1].1, d.2)
        } else {
            (p[0].1, p[1].1, p[2].1)
        },
        _ => (v, d.1, d.2),
    }
}

/// The four border sides (left, right, top, bottom) of a style map. Each
/// width comes from `border-<side>-width`, else `border-width`, else is
/// zero; style and colour come from `border-<side>`, else `border`.
pub open spec fn border_model(m: StyleModel) -> (BorderSideModel, BorderSideModel, BorderSideModel, BorderSideModel) {
    let d = default_side();
    let parts = if m.contains_key("border"@) {
        border_parts(m["border"@].0)
    } else {
        (None, None, None)
    };
    let w = match parts.0 {
        Some(x) => x,
        None => d.0,
    };
    let s = match parts.1 {
        Some(x) => x,
        None => d.1,
    };
    let c = match parts.2 {
        Some(x) => x,
        None => d.2,
    };
    let all = (w, s, c);
    (
        border_side_model(m, "border-left"@, "border-left-width"@, all),
        border_side_model(m, "border-right"@, "border-right-width"@, all),
        border_side_model(m, "border-top"@, "border-top-width"@, all),
        border_side_model(m, "border-bottom"@, "border-bottom-width"@, all),
    )
}

/// One border side: style and colour from the `border-<side>` value where
/// set, else from `all` (what `border` gives); the width from
/// `border-<side>-width` where set, else from `border-width` where set, else
/// zero.
pub open spec fn border_side_model(m: StyleModel, key: Seq<char>, width_key: Seq<char>, all: BorderSideModel) -> BorderSideModel {
    let base = if m.contains_key(key) {
        side_model(m[key].0)
    } else {
        all
    };
    let width = if m.contains_key(width_key) {
        m[width_key].0
    } else if m.contains_key("border-width"@) {
        m["border-width"@].0
    } else {
        ValueModel::Number(0)
    };
    (width, base.1, base.2)
}

/// The padding of each side of a box.
pub struct Padding {
    pub top: Value,
    pub right: Value,
    pub bottom: Value,
    pub left: Value,
}

/// The margin of each side of a box.
pub struct Margin {
    pub top: Value,
    pub right: Value,
    pub bottom: Value,
    pub left: Value,
}

/// The four sides of a border.
pub struct Border {
    pub left: BorderSide,
    pub right: BorderSide,
    pub top: BorderSide,
    pub bottom: BorderSide,
}

/// One side of a border.
pub struct BorderSide {
    pub width: Value,
    pub style: Value,
    pub color: Value,
}

impl Padding {
    /// Padding from (top, right, bottom, left).
    pub fn new(v: (Value, Value, Value, Value)) -> (r: Padding)
        ensures
            r.top == v.0,
            r.right == v.1,
            r.bottom == v.2,
            r.left == v.3,
    {
        Padding { top: v.0, right: v.1, bottom: v.2, left: v.3 }
    }

    /// The four sides as models.
    pub open spec fn sides(&self) -> SidesModel {
        (self.top@, self.right@, self.bottom@, self.left@)
    }
}

impl Margin {
    /// Margins from (top, right, bottom, left).
    pub fn new(v: (Value, Value, Value, Value)) -> (r: Margin)
        ensures
            r.top == v.0,
            r.right == v.1,
            r.bottom == v.2,
            r.left == v.3,
    {
        Margin { top: v.0, right: v.1, bottom: v.2, left: v.3 }
    }

    /// The four sides as models.
    pub open spec fn sides(&self) -> SidesModel {
        (self.top@, self.right@, self.bottom@, self.left@)
    }
}

impl BorderSide {
    /// The side as a model.
    pub open spec fn model(&self) -> BorderSideModel {
        (self.width@, self.style@, self.color@)
    }

    /// A side with no width, no style and a black colour.
    pub fn default() -> (r: BorderSide)
        ensures
            r.model() == default_side(),
    {
        BorderSide { width: Value::Number(0), style: Value::Number(0), color: Value::Color(ColorValue::black()) }
    }
}

impl Border {
    /// The sides (left, right, top, bottom) as models.
    pub open spec fn model(&self) -> (BorderSideModel, BorderSideModel, BorderSideModel, BorderSideModel) {
        (self.left.model(), self.right.model(), self.top.model(), self.bottom.model())
    }
}

/// The components of a multi-part value, as models.
pub open spec fn parts_of(m: MultiValue) -> Seq<(Option<Operator>, ValueModel)> {
    Value::Multiple(m)@->Multiple_0
}

/// Takes a `padding` or `margin` value and gives (top, right, bottom, left).
pub fn to_padding_sizes(padding: &Value) -> (r: Option<(Value, Value, Value, Value)>)
    ensures
        match r {
            Some(t) => side_sizes(padding@) == Some((t.0@, t.1@, t.2@, t.3@)),
            None => side_sizes(padding@) is None,
        },
{
    match padding {
        Value::Number(_) | Value::Length(_, _) => Some(
            (padding.deep_copy(), padding.deep_copy(), padding.deep_copy(), padding.deep_copy()),
        ),
        Value::Keyword(kw) => {
            if str_eq(kw.as_str(), "auto") {
                Some(
                    (
                        padding.deep_copy(),
                        padding.deep_copy(),
                        padding.deep_copy(),
                        padding.deep_copy(),
                    ),
                )
            } else {
                None
            }
        },
        Value::Multiple(values) => {
            let ghost p = parts_of(*values);
            if !values.is_space_separated() {
                assert(!space_separated(p)) by {
                    let i = choose|i: int| 0 <= i < values.0.len() && !((#[trigger] values.0@[i]).0 is None || values.0@[i].0 == Some(Operator::Space));
                    assert(p[i].0 == values.0@[i].0);
                }
                return None;
            }
            assert(space_separated(p)) by {
                assert forall|i: int| 0 <= i < p.len() implies (#[trigger] p[i]).0 is None || p[i].0 == Some(Operator::Space) by {
                    assert(p[i].0 == values.0@[i].0);
                }
            }
            let n = values.0.len();
            if n == 1 {
                let v = &values.0[0].1;
                Some((v.deep_copy(), v.deep_copy(), v.deep_copy(), v.deep_copy()))
            } else if n == 2 {
                let (top, left) = (&values.0[0].1, &values.0[1].1);
                Some((top.deep_copy(), left.deep_copy(), top.deep_copy(), left.deep_copy()))
            } else if n == 3 {
                let (top, left, bottom) = (&values.0[0].1, &values.0[1].1, &values.0[2].1);
                Some((top.deep_copy(), left.deep_copy(), bottom.deep_copy(), left.deep_copy()))
            } else if n == 4 {
                let (top, right, bottom, left) = (
                    &values.0[0].1,
                    &values.0[1].1,
                    &values.0[2].1,
                    &values.0[3].1,
                );
                Some((top.deep_copy(), right.deep_copy(), bottom.deep_copy(), left.deep_copy()))
            } else {
                None
            }
        },
        _ => None,
    }
}

/// Takes a `margin` value and gives (top, right, bottom, left).
pub fn to_margin_sizes(margin: &Value) -> (r: Option<(Value, Value, Value, Value)>)
    ensures
        match r {
            Some(t) => side_sizes(margin@) == Some((t.0@, t.1@, t.2@, t.3@)),
            None => side_sizes(margin@) is None,
        },
{
    to_padding_sizes(margin)
}

/// `style[key]`, copied, or `default` where it is not set.
pub(crate) fn value_or_default(style: &StyleMap, key: &str, default: Value) -> (r: Value)
    ensures
        r@ == value_or(style@, key@, default@),
{
    match style.get(key) {
        Some(v) => v.deep_copy(),
        None => default,
    }
}

/// The four sides from a shorthand and its per-side properties.
fn get_sides(style: &StyleMap, short: &str, top: &str, right: &str, bottom: &str, left: &str) -> (r: (Value, Value, Value, Value))
    ensures
        (r.0@, r.1@, r.2@, r.3@) == sides_model(style@, short@, top@, right@, bottom@, left@),
{
    let base = match style.get(short) {
        Some(v) => match to_padding_sizes(v) {
            Some(t) => t,
            None => (Value::Number(0), Value::Number(0), Value::Number(0), Value::Number(0)),
        },
        None => (Value::Number(0), Value::Number(0), Value::Number(0), Value::Number(0)),
    };
    let (b0, b1, b2, b3) = base;
    (
        value_or_default(style, top, b0),
        value_or_default(style, right, b1),
        value_or_default(style, bottom, b2),
        value_or_default(style, left, b3),
    )
}

/// The padding of each side of a box with this style.
pub fn get_padding(style: &StyleMap) -> (r: Padding)
    ensures
        r.sides() == padding_model(style@),
{
    Padding::new(get_sides(style, "padding", "padding-top", "padding-right", "padding-bottom", "padding-left"))
}

/// The margin of each side of a box with this style.
pub fn get_margins(style: &StyleMap) -> (r: Margin)
    ensures
        r.sides() == margin_model(style@),
{
    Margin::new(get_sides(style, "margin", "margin-top", "margin-right", "margin-bottom", "margin-left"))
}

/// Whether the components of `mv` are separated by spaces.
fn space_separated_parts(mv: &MultiValue) -> (r: bool)
    ensures
        r == space_separated(parts_of(*mv)),
{
    let ghost p = parts_of(*mv);
    let r = mv.is_space_separated();
    if !r {
        assert(!space_separated(p)) by {
            let i = choose|i: int| 0 <= i < mv.0.len() && !((#[trigger] mv.0@[i]).0 is None || mv.0@[i].0 == Some(Operator::Space));
            assert(p[i].0 == mv.0@[i].0);
        }
    } else {
        assert forall|i: int| 0 <= i < p.len() implies (#[trigger] p[i]).0 is None || p[i].0 == Some(Operator::Space) by {
            assert(p[i].0 == mv.0@[i].0);
        }
    }
    r
}

/// Which test a component must pass.
enum Want {
    Width,
    Style,
    Color,
}

/// The test of `want`.
spec fn want_spec(want: Want) -> spec_fn(ValueModel) -> bool {
    match want {
        Want::Width => |x: ValueModel| is_width_model(x),
        Want::Style => |x: ValueModel| is_border_style_model(x),
        Want::Color => |x: ValueModel| is_color_model(x),
    }
}

/// A copy of the first component of `mv` that passes the test of `want`.
fn find_part(mv: &MultiValue, want: Want) -> (r: Option<Value>)
    ensures
        match r {
            Some(v) => first_where(parts_of(*mv), want_spec(want)) == Some(v@),
            None => first_where(parts_of(*mv), want_spec(want)) is None,
        },
{
    let ghost p = parts_of(*mv);
    let ghost f = want_spec(want);
    assert(p.subrange(0, p.len() as int) =~= p);
    let mut i: usize = 0;
    while i < mv.0.len()
        invariant
            0 <= i <= mv.0@.len(),
            p == parts_of(*mv),
            f == want_spec(want),
            first_where(p, f) == first_where(p.subrange(i as int, p.len() as int), f),
        decreases mv.0@.len() - i,
    {
        let v = &mv.0[i].1;
        assert(p[i as int].1 == v@);
        assert(p.subrange(i as int, p.len() as int).drop_first() =~= p.subrange(i + 1, p.len() as int));
        let hit = match want {
            Want::Width => v.is_width(),
            Want::Style => v.is_border_style(),
            Want::Color => v.is_color(),
        };
        if hit {
            return Some(v.deep_copy());
        }
        i += 1;
    }
    assert(p.subrange(i as int, p.len() as int) =~= Seq::<(Option<Operator>, ValueModel)>::empty());
    None
}

/// Tries to take a border width, style and colour from a `border` value;
/// they may come in any order.
pub fn process_border(val: &Value) -> (r: (Option<Value>, Option<Value>, Option<Value>))
    ensures
        (match r.0 {
            Some(v) => Some(v@),
            None => None,
        }) == border_parts(val@).0,
        (match r.1 {
            Some(v) => Some(v@),
            None => None,
        }) == border_parts(val@).1,
        (match r.2 {
            Some(v) => Some(v@),
            None => None,
        }) == border_parts(val@).2,
{
    match val {
        Value::Multiple(mv) => {
            if !space_separated_parts(mv) {
                return (None, None, None);
            }
            let width = find_part(mv, Want::Width);
            let style = find_part(mv, Want::Style);
            let color = find_part(mv, Want::Color);
            proof {
                assert(want_spec(Want::Width) == |x: ValueModel| is_width_model(x));
                assert(want_spec(Want::Style) == |x: ValueModel| is_border_style_model(x));
                assert(want_spec(Want::Color) == |x: ValueModel| is_color_model(x));
            }
            (width, style, color)
        },
        _ => (None, None, None),
    }
}

/// Takes a `border-<side>` value and gives the side it describes.
pub fn to_border_side(val: &Value) -> (r: BorderSide)
    ensures
        r.model() == side_model(val@),
{
    match val {
        Value::Multiple(mv) => {
            let ghost p = parts_of(*mv);
            if !space_separated_parts(mv) || mv.0.len() == 0 {
                BorderSide::default()
            } else if mv.0.len() == 1 {
                let d = BorderSide::default();
                BorderSide { width: mv.0[0].1.deep_copy(), ..d }
            } else if mv.0.len() == 2 {
                let d = BorderSide::default();
                BorderSide { width: mv.0[0].1.deep_copy(), style: mv.0[1].1.deep_copy(), ..d }
            } else {
                BorderSide {
                    width: mv.0[0].1.deep_copy(),
                    style: mv.0[1].1.deep_copy(),
                    color: mv.0[2].1.deep_copy(),
                }
            }
        },
        _ => {
            let d = BorderSide::default();
            BorderSide { width: val.deep_copy(), ..d }
        },
    }
}

/// A copy of a border side.
fn copy_side(s: &BorderSide) -> (r: BorderSide)
    ensures
        r.model() == s.model(),
{
    BorderSide { width: s.width.deep_copy(), style: s.style.deep_copy(), color: s.color.deep_copy() }
}

/// The side `key` of a border: style and colour from its own property where
/// set, else from `all`; the width from `width_key` where set, else from
/// `border-width` where set, else zero.
fn side_or(style: &StyleMap, key: &str, width_key: &str, all: &BorderSide) -> (r: BorderSide)
    ensures
        r.model() == border_side_model(style@, key@, width_key@, all.model()),
{
    let mut side = match style.get(key) {
        Some(v) => to_border_side(v),
        None => copy_side(all),
    };
    match style.get(width_key) {
        Some(w) => {
            side.width = w.deep_copy();
        },
        None => match style.get("border-width") {
            Some(w) => {
                side.width = w.deep_copy();
            },
            None => {
                side.width = Value::Number(0);
            },
        },
    }
    side
}

/// The border of a box with this style, from `border`, `border-<side>`,
/// `border-width` and `border-<side>-width`.
pub fn get_border(style: &StyleMap) -> (r: Border)
    ensures
        r.model() == border_model(style@),
{
    let mut all = BorderSide::default();
    match style.get("border") {
        Some(val) => {
            let (_, border_style, color) = process_border(val);
            if let Some(s) = border_style {
                all.style = s;
            }
            if let Some(c) = color {
                all.color = c;
            }
        },
        None => {},
    }
    Border {
        left: side_or(style, "border-left", "border-left-width", &all),
        right: side_or(style, "border-right", "border-right-width", &all),
        top: side_or(style, "border-top", "border-top-width", &all),
        bottom: side_or(style, "border-bottom", "border-bottom-width", &all),
    }
}

} // verus!
