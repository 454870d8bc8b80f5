//! The box tree: built from the styled tree, then laid out in one
//! depth-first pass. Geometry is in whole pixels; sums saturate at the ends
//! of the `i64` range.
use vstd::prelude::*;
use crate::css::{px_model, Unit, Value, ValueModel};
use crate::properties::{
    border_model, get_border, get_margins, get_padding, margin_model, padding_model, value_or_default,
    Border, BorderSideModel,
};
use crate::px::{clamp, sat_add, sat_mul, sat_sub};
use crate::style::{ContentModel, ElementModel, StyleMap, StyleModel, StyledContent, StyledElement};
use crate::text::str_eq;

verus! {

broadcast use vstd::std_specs::vec::group_vec_axioms;

/// A rectangle: its top left corner and its size.
#[derive(Debug, Clone, Copy, PartialEq, Eq, Structural)]
pub struct Rect {
    pub x: i64,
    pub y: i64,
    pub width: i64,
    pub height: i64,
}

/// The sizes of the four edges around a box.
#[derive(Debug, Clone, Copy, PartialEq, Eq, Structural)]
pub struct EdgeSizes {
    pub left: i64,
    pub right: i64,
    pub top: i64,
    pub bottom: i64,
}

/// The geometry of a box: its content rectangle and the padding, border and
/// margin around it.
#[derive(Debug, Clone, Copy, PartialEq, Eq, Structural)]
pub struct Dimensions {
    pub content: Rect,
    pub margin: EdgeSizes,
    pub border: EdgeSizes,
    pub padding: EdgeSizes,
}

/// `r` grown by `e` on each side.
pub open spec fn expanded(r: Rect, e: EdgeSizes) -> Rect {
    Rect {
        x: clamp(r.x - e.left) as i64,
        y: clamp(r.y - e.top) as i64,
        width: clamp(clamp(r.width + e.left) + e.right) as i64,
        height: clamp(clamp(r.height + e.top) + e.bottom) as i64,
    }
}

/// The padding box of `d`.
pub open spec fn padding_box_of(d: Dimensions) -> Rect {
    expanded(d.content, d.padding)
}

/// The border box of `d`.
pub open spec fn border_box_of(d: Dimensions) -> Rect {
    expanded(padding_box_of(d), d.border)
}

/// The margin box of `d`.
pub open spec fn margin_box_of(d: Dimensions) -> Rect {
    expanded(border_box_of(d), d.margin)
}

impl Rect {
    /// No area, at the origin.
    pub fn zero() -> (r: Rect)
        ensures
            r == (Rect { x: 0, y: 0, width: 0, height: 0 }),
    {
        Rect { x: 0, y: 0, width: 0, height: 0 }
    }

    /// This rectangle grown by `edge` on each side.
    pub fn expanded_by(self, edge: EdgeSizes) -> (r: Rect)
        ensures
            r == expanded(self, edge),
    {
        Rect {
            x: sat_sub(self.x, edge.left),
            y: sat_sub(self.y, edge.top),
            width: sat_add(sat_add(self.width, edge.left), edge.right),
            height: sat_add(sat_add(self.height, edge.top), edge.bottom),
        }
    }
}

impl EdgeSizes {
    /// No edge.
    pub fn zero() -> (r: EdgeSizes)
        ensures
            r == (EdgeSizes { left: 0, right: 0, top: 0, bottom: 0 }),
    {
        EdgeSizes { left: 0, right: 0, top: 0, bottom: 0 }
    }
}

impl Dimensions {
    /// No area and no edges, at the origin.
    pub fn zero() -> (r: Dimensions)
        ensures
            r == (Dimensions {
                content: Rect { x: 0, y: 0, width: 0, height: 0 },
                margin: EdgeSizes { left: 0, right: 0, top: 0, bottom: 0 },
                border: EdgeSizes { left: 0, right: 0, top: 0, bottom: 0 },
                padding: EdgeSizes { left: 0, right: 0, top: 0, bottom: 0 },
            }),
    {
        Dimensions { content: Rect::zero(), margin: EdgeSizes::zero(), border: EdgeSizes::zero(), padding: EdgeSizes::zero() }
    }

    /// The content area and its padding.
    pub fn padding_box(self) -> (r: Rect)
        ensures
            r == padding_box_of(self),
    {
        self.content.expanded_by(self.padding)
    }

    /// The padding box and its border.
    pub fn border_box(self) -> (r: Rect)
        ensures
            r == border_box_of(self),
    {
        self.padding_box().expanded_by(self.border)
    }

    /// The border box and its margin.
    pub fn margin_box(self) -> (r: Rect)
        ensures
            r == margin_box_of(self),
    {
        self.border_box().expanded_by(self.margin)
    }
}

/// How a box takes part in layout.
#[derive(Debug, Clone, Copy, PartialEq, Eq, Structural)]
pub enum BoxType {
    Block,
    Inline,
    Anonymous,
}

/// What a box shows.
#[derive(Debug, PartialEq)]
pub enum BoxContentType {
    Normal,
    Image,
    Text(String),
}

/// The box type that a `display` value asks for: `inline` for the keyword
/// `inline`, else block.
pub open spec fn box_type_model(display: Option<ValueModel>) -> BoxType {
    match display {
        Some(ValueModel::Keyword(k)) => if k == "inline"@ {
            BoxType::Inline
        } else {
            BoxType::Block
        },
        _ => BoxType::Block,
    }
}

/// The `display` value of a style map, if set.
pub open spec fn display_of(m: StyleModel) -> Option<ValueModel> {
    if m.contains_key("display"@) {
        Some(m["display"@].0)
    } else {
        None
    }
}

/// The box type of a box with this style.
pub fn box_type_of(style: &StyleMap) -> (r: BoxType)
    ensures
        r == box_type_model(display_of(style@)),
{
    match style.get("display") {
        Some(Value::Keyword(k)) => {
            if str_eq(k.as_str(), "inline") {
                BoxType::Inline
            } else {
                BoxType::Block
            }
        },
        _ => BoxType::Block,
    }
}

/// The font size of a box with style `m` whose parent's font size is
/// `parent`: a number is the size, a percentage or an `em` length is relative
/// to the parent, a `px` length is the size; anything else keeps the parent's.
pub open spec fn font_size_model(m: StyleModel, parent: i64) -> i64 {
    if m.contains_key("font-size"@) {
        match m["font-size"@].0 {
            ValueModel::Number(n) => n,
            ValueModel::Percentage(n) => clamp(n * parent) as i64,
            ValueModel::Length(n, Unit::Px) => n,
            ValueModel::Length(n, Unit::Em) => clamp(n * parent) as i64,
            _ => parent,
        }
    } else {
        parent
    }
}

/// The font size of a box with this style, given its parent's.
pub fn calculate_font_size(s: &StyleMap, parent_size: i64) -> (r: i64)
    ensures
        r == font_size_model(s@, parent_size),
{
    match s.get("font-size") {
        Some(Value::Number(n)) => *n,
        Some(Value::Percentage(n)) => sat_mul(*n, parent_size),
        Some(Value::Length(n, Unit::Px)) => *n,
        Some(Value::Length(n, Unit::Em)) => sat_mul(*n, parent_size),
        _ => parent_size,
    }
}

/// The size in pixels of a value, zero where it is no length: a value that
/// layout needs in pixels and that is no length counts as zero, for widths,
/// heights and edges alike.
pub open spec fn px0(v: ValueModel, font_size: int) -> i64 {
    match px_model(v, font_size) {
        Some(n) => n,
        None => 0,
    }
}

/// The size in pixels of a value, zero where it is no length.
fn px_or_zero(v: &Value, font_size: i64) -> (r: i64)
    ensures
        r == px0(v@, font_size as int),
{
    match v.try_to_px(font_size) {
        Some(n) => n,
        None => 0,
    }
}

/// Whether a value is the keyword `auto`.
pub open spec fn is_auto(v: ValueModel) -> bool {
    v == ValueModel::Keyword("auto"@)
}

/// The horizontal sizes of a block: (width, margin-left, margin-right) for a
/// container `cw` wide, from the declared width `w`, margins `ml` and `mr`,
/// borders `bl` and `br` and paddings `pl` and `pr`.
///
/// The underflow is what is left of the container once all seven are taken.
/// Where the width is set and the seven exceed the container, `auto` margins
/// count as zero. Then a set width with set margins gives the underflow to
/// the right margin; one `auto` margin takes it; two `auto` margins share it,
/// the odd pixel going right; an `auto` width takes it where it is not
/// negative, else the width is zero and the right margin takes it.
pub open spec fn block_widths(
    cw: int,
    fs: int,
    w: ValueModel,
    ml: ValueModel,
    mr: ValueModel,
    bl: ValueModel,
    br: ValueModel,
    pl: ValueModel,
    pr: ValueModel,
) -> (i64, i64, i64) {
    let total: int = px0(ml, fs) + px0(mr, fs) + px0(bl, fs) + px0(br, fs) + px0(pl, fs) + px0(pr, fs)
        + px0(w, fs);
    let over = !is_auto(w) && total > cw;
    let ml_auto = is_auto(ml) && !over;
    let mr_auto = is_auto(mr) && !over;
    let u: int = cw - total;
    let width = px0(w, fs);
    let left = px0(ml, fs);
    let right = px0(mr, fs);
    if is_auto(w) {
        if u >= 0 {
            (clamp(u) as i64, left, right)
        } else {
            (0, left, clamp(right + u) as i64)
        }
    } else if !ml_auto && !mr_auto {
        (width, left, clamp(right + u) as i64)
    } else if !ml_auto && mr_auto {
        (width, left, clamp(u) as i64)
    } else if ml_auto && !mr_auto {
        (width, clamp(u) as i64, right)
    } else {
        (width, clamp(u / 2) as i64, clamp(u - u / 2) as i64)
    }
}

/// `x` brought into the range of `i64`.
fn clamp_i128(x: i128) -> (r: i64)
    ensures
        r == clamp(x as int),
{
    if x < i64::MIN as i128 {
        i64::MIN
    } else if x > i64::MAX as i128 {
        i64::MAX
    } else {
        x as i64
    }
}

/// The horizontal sizes of a block: (width, margin-left, margin-right).
pub fn resolve_block_widths(
    cw: i64,
    fs: i64,
    w: &Value,
    ml: &Value,
    mr: &Value,
    bl: &Value,
    br: &Value,
    pl: &Value,
    pr: &Value,
) -> (r: (i64, i64, i64))
    ensures
        r == block_widths(cw as int, fs as int, w@, ml@, mr@, bl@, br@, pl@, pr@),
{
    let width = px_or_zero(w, fs);
    let left = px_or_zero(ml, fs);
    let right = px_or_zero(mr, fs);
    let total: i128 = left as i128 + right as i128 + px_or_zero(bl, fs) as i128 + px_or_zero(br, fs) as i128
        + px_or_zero(pl, fs) as i128 + px_or_zero(pr, fs) as i128 + width as i128;
    let w_auto = w.is_keyword("auto");
    let over = !w_auto && total > cw as i128;
    let ml_auto = ml.is_keyword("auto") && !over;
    let mr_auto = mr.is_keyword("auto") && !over;
    let u: i128 = cw as i128 - total;
    proof {
        assert(w_auto == is_auto(w@));
        assert(ml.is_keyword_spec("auto"@) == is_auto(ml@));
        assert(mr.is_keyword_spec("auto"@) == is_auto(mr@));
    }
    if w_auto {
        if u >= 0 {
            (clamp_i128(u), left, right)
        } else {
            (0, left, clamp_i128(right as i128 + u))
        }
    } else if !ml_auto && !mr_auto {
        (width, left, clamp_i128(right as i128 + u))
    } else if !ml_auto && mr_auto {
        (width, left, clamp_i128(u))
    } else if ml_auto && !mr_auto {
        (width, clamp_i128(u), right)
    } else {
        let half: i128 = u / 2;
        proof {
            assert(half == u as int / 2) by (nonlinear_arith) requires half == u / 2;
        }
        (width, clamp_i128(half), clamp_i128(u - half))
    }
}

/// What a box shows, as a model.
pub enum BoxContentModel {
    Normal,
    Image,
    Text(Seq<char>),
}

/// The model of a box content type.
pub open spec fn content_model(c: BoxContentType) -> BoxContentModel {
    match c {
        BoxContentType::Normal => BoxContentModel::Normal,
        BoxContentType::Image => BoxContentModel::Image,
        BoxContentType::Text(s) => BoxContentModel::Text(s@),
    }
}

/// The mathematical form of a box and the boxes inside it.
pub struct BoxModel {
    pub dimensions: Dimensions,
    pub box_type: BoxType,
    pub content: BoxContentModel,
    pub style: StyleModel,
    pub font_size: i64,
    pub border: Option<(BorderSideModel, BorderSideModel, BorderSideModel, BorderSideModel)>,
    pub contents: Seq<BoxModel>,
}

/// A box of the layout tree.
pub struct LayoutBox {
    pub dimensions: Dimensions,
    pub box_type: BoxType,
    pub contents: Vec<LayoutBox>,
    pub style: StyleMap,
    pub box_content_type: BoxContentType,
    pub font_size: i64,
    pub border: Option<Border>,
}

/// The model of a box.
pub open spec fn box_model(b: LayoutBox) -> BoxModel
    decreases b,
{
    BoxModel {
        dimensions: b.dimensions,
        box_type: b.box_type,
        content: content_model(b.box_content_type),
        style: b.style@,
        font_size: b.font_size,
        border: match b.border {
            Some(x) => Some(x.model()),
            None => None,
        },
        contents: Seq::new(
            b.contents.len() as nat,
            |i: int|
                if 0 <= i < b.contents.len() {
                    box_model(b.contents[i])
                } else {
                    empty_box(BoxType::Anonymous, 0)
                },
        ),
    }
}

impl View for LayoutBox {
    type V = BoxModel;

    open spec fn view(&self) -> BoxModel {
        box_model(*self)
    }
}

/// A box of `box_type` with nothing in it, no style and no geometry.
pub open spec fn empty_box(box_type: BoxType, font_size: i64) -> BoxModel {
    BoxModel {
        dimensions: Dimensions {
            content: Rect { x: 0, y: 0, width: 0, height: 0 },
            margin: EdgeSizes { left: 0, right: 0, top: 0, bottom: 0 },
            border: EdgeSizes { left: 0, right: 0, top: 0, bottom: 0 },
            padding: EdgeSizes { left: 0, right: 0, top: 0, bottom: 0 },
        },
        box_type,
        content: BoxContentModel::Normal,
        style: Map::empty(),
        font_size,
        border: None,
        contents: seq![],
    }
}

/// The boxes `prev` after the box `b` was added to a parent of type
/// `parent`: a block box is appended; an inline box goes into a trailing
/// anonymous box, which is appended first where there is none, unless the
/// parent is itself inline or anonymous.
pub open spec fn add_box(prev: Seq<BoxModel>, parent: BoxType, font_size: i64, b: BoxModel) -> Seq<BoxModel> {
    match b.box_type {
        BoxType::Block => prev.push(b),
        BoxType::Inline => if parent != BoxType::Block {
            prev.push(b)
        } else if prev.len() > 0 && prev.last().box_type == BoxType::Anonymous {
            prev.update(prev.len() - 1, BoxModel { contents: prev.last().contents.push(b), ..prev.last() })
        } else {
            prev.push(BoxModel { contents: seq![b], ..empty_box(BoxType::Anonymous, font_size) })
        },
        BoxType::Anonymous => prev,
    }
}

/// The font size that an element's own box starts with: a number under
/// `font-size`, else 16.
pub open spec fn initial_font_size(m: StyleModel) -> i64 {
    if m.contains_key("font-size"@) && m["font-size"@].0 is Number {
        m["font-size"@].0->Number_0
    } else {
        16
    }
}

/// The box tree of a styled element.
pub open spec fn build_model(e: ElementModel) -> BoxModel
    decreases e, 1nat, 0nat,
{
    BoxModel {
        contents: build_children(e, e.contents.len()),
        ..BoxModel {
            style: e.styles,
            ..empty_box(box_type_model(display_of(e.styles)), initial_font_size(e.styles))
        }
    }
}

/// The boxes of the first `k` children of `e`.
pub open spec fn build_children(e: ElementModel, k: nat) -> Seq<BoxModel>
    decreases e, 0nat, k,
{
    if k == 0 || k > e.contents.len() {
        seq![]
    } else {
        let prev = build_children(e, (k - 1) as nat);
        let parent = box_type_model(display_of(e.styles));
        let fs = initial_font_size(e.styles);
        match e.contents[k - 1] {
            ContentModel::Element(c) => add_box(prev, parent, fs, build_model(c)),
            ContentModel::Text(t, m) => add_box(
                prev,
                parent,
                fs,
                BoxModel {
                    content: BoxContentModel::Text(t),
                    style: e.styles,
                    ..empty_box(box_type_model(display_of(m)), fs)
                },
            ),
        }
    }
}

impl LayoutBox {
    /// A box of `box_type` with nothing in it, no style and no geometry.
    pub fn new(box_type: BoxType, font_size: i64) -> (r: LayoutBox)
        ensures
            r@ == empty_box(box_type, font_size),
    {
        let r = LayoutBox {
            box_type,
            contents: Vec::new(),
            dimensions: Dimensions::zero(),
            style: StyleMap::new(),
            box_content_type: BoxContentType::Normal,
            font_size,
            border: None,
        };
        assert(r@.contents =~= Seq::<BoxModel>::empty());
        r
    }

    /// Adds a child box as `add_box` says: inline boxes inside a block go
    /// into its trailing anonymous box.
    pub fn add_child(&mut self, b: LayoutBox)
        ensures
            final(self)@ == (BoxModel {
                contents: add_box(old(self)@.contents, old(self).box_type, old(self).font_size, b@),
                ..old(self)@
            }),
    {
        let ghost before = self@;
        match b.box_type {
            BoxType::Block => {
                self.contents.push(b);
                assert(self@.contents =~= before.contents.push(b@));
            },
            BoxType::Inline => {
                match self.box_type {
                    BoxType::Block => {
                        let n = self.contents.len();
                        if n > 0 {
                            assert(before.contents[n - 1] == box_model(self.contents@[n - 1]));
                        }
                        assert(before.contents.len() == n);
                        if n > 0 && self.contents[n - 1].box_type == BoxType::Anonymous {
                            let ghost last = self.contents@[n - 1];
                            self.contents[n - 1].contents.push(b);
                            proof {
                                let nl = self.contents@[n - 1];
                                assert(self.contents@.len() == n);
                                assert(forall|k: int| 0 <= k < n - 1 ==> self.contents@[k] == old(self).contents@[k]);
                                assert(box_model(last) == before.contents.last());
                                assert(box_model(nl).contents =~= box_model(last).contents.push(b@));
                                assert(self@.contents =~= before.contents.update(
                                    n - 1,
                                    BoxModel { contents: before.contents.last().contents.push(b@), ..before.contents.last() },
                                ));
                            }
                        } else {
                            let mut anon = LayoutBox::new(BoxType::Anonymous, self.font_size);
                            anon.contents.push(b);
                            assert(anon@.contents =~= seq![b@]);
                            self.contents.push(anon);
                            assert(self@.contents =~= before.contents.push(
                                BoxModel { contents: seq![b@], ..empty_box(BoxType::Anonymous, self.font_size) },
                            ));
                        }
                    },
                    _ => {
                        self.contents.push(b);
                        assert(self@.contents =~= before.contents.push(b@));
                    },
                }
            },
            BoxType::Anonymous => {},
        }
    }
}

/// The content type of a styled node: text for text, an image for `img`,
/// else normal.
pub fn get_content_type(content: &StyledContent) -> (r: BoxContentType)
    ensures
        content_model(r) == match *content {
            StyledContent::Element(e) => if e.name@ == "img"@ {
                BoxContentModel::Image
            } else {
                BoxContentModel::Normal
            },
            StyledContent::Text(t) => BoxContentModel::Text(t.contents@),
        },
{
    match content {
        StyledContent::Element(elt) => {
            if str_eq(elt.name.as_str(), "img") {
                BoxContentType::Image
            } else {
                BoxContentType::Normal
            }
        },
        StyledContent::Text(txt) => BoxContentType::Text(txt.contents.clone()),
    }
}

/// The font size that an element's own box starts with.
fn initial_font_size_of(style: &StyleMap) -> (r: i64)
    ensures
        r == initial_font_size(style@),
{
    match style.get("font-size") {
        Some(Value::Number(n)) => *n,
        _ => 16,
    }
}

/// The box tree of a styled element: one box per element and per text,
/// inline ones grouped into anonymous boxes.
pub fn build_layout_tree(root: &StyledElement) -> (r: LayoutBox)
    ensures
        r@ == build_model(root@),
    decreases root,
{
    let font_size = initial_font_size_of(&root.styles);
    let box_type = box_type_of(&root.styles);
    let mut root_box = LayoutBox {
        dimensions: Dimensions::zero(),
        box_type,
        contents: Vec::new(),
        style: root.styles.copy(),
        box_content_type: BoxContentType::Normal,
        font_size,
        border: None,
    };
    let ghost e = root@;
    assert(build_children(e, 0) =~= Seq::<BoxModel>::empty());
    assert(root_box@.contents =~= Seq::<BoxModel>::empty());
    let mut i: usize = 0;
    while i < root.contents.len()
        invariant
            0 <= i <= root.contents@.len(),
            e == root@,
            root_box@ == (BoxModel { contents: build_children(e, i as nat), ..build_model(e) }),
            root_box.box_type == box_type_model(display_of(e.styles)),
            root_box.font_size == initial_font_size(e.styles),
            font_size == root_box.font_size,
        decreases root.contents@.len() - i,
    {
        assert(e.contents[i as int] == root.contents@[i as int]@);
        assert(build_children(e, (i + 1) as nat) == add_box(
            build_children(e, i as nat),
            root_box.box_type,
            root_box.font_size,
            match e.contents[i as int] {
                ContentModel::Element(c) => build_model(c),
                ContentModel::Text(t, m) => BoxModel {
                    content: BoxContentModel::Text(t),
                    style: e.styles,
                    ..empty_box(box_type_model(display_of(m)), root_box.font_size)
                },
            },
        ));
        match &root.contents[i] {
            StyledContent::Element(elt) => {
                proof {
                    vstd::std_specs::vec::axiom_vec_index_decreases(root.contents, i as int);
                }
                let b = build_layout_tree(elt);
                assert(b@ == build_model(e.contents[i as int]->Element_0));
                root_box.add_child(b);
                assert(root_box@.contents == build_children(e, (i + 1) as nat));
            },
            StyledContent::Text(text) => {
                let b = LayoutBox {
                    dimensions: Dimensions::zero(),
                    box_type: box_type_of(&text.styles),
                    contents: Vec::new(),
                    style: root.styles.copy(),
                    box_content_type: BoxContentType::Text(text.contents.clone()),
                    font_size,
                    border: None,
                };
                assert(b@.contents =~= Seq::<BoxModel>::empty());
                assert(b@ == BoxModel {
                    content: BoxContentModel::Text(e.contents[i as int]->Text_0),
                    style: e.styles,
                    ..empty_box(box_type_model(display_of(e.contents[i as int]->Text_1)), root_box.font_size)
                });
                root_box.add_child(b);
                assert(root_box@.contents == build_children(e, (i + 1) as nat));
            },
        }
        i += 1;
    }
    root_box
}

/// The declared width of a style, `auto` where none is.
pub open spec fn declared_width(m: StyleModel) -> ValueModel {
    if m.contains_key("width"@) {
        m["width"@].0
    } else {
        ValueModel::Keyword("auto"@)
    }
}

/// A box after the horizontal step of block layout in a container `c`.
pub open spec fn with_block_width(b: BoxModel, c: Dimensions) -> BoxModel {
    let m = b.style;
    let fs = b.font_size as int;
    let mg = margin_model(m);
    let pd = padding_model(m);
    let bd = border_model(m);
    let w = block_widths(c.content.width as int, fs, declared_width(m), mg.3, mg.1, bd.0.0, bd.1.0, pd.3, pd.1);
    let d = b.dimensions;
    BoxModel {
        dimensions: Dimensions {
            content: Rect { width: w.0, ..d.content },
            padding: EdgeSizes { left: px0(pd.3, fs), right: px0(pd.1, fs), ..d.padding },
            border: EdgeSizes { left: px0(bd.0.0, fs), right: px0(bd.1.0, fs), ..d.border },
            margin: EdgeSizes { left: w.1, right: w.2, ..d.margin },
        },
        border: Some(bd),
        ..b
    }
}

/// The font size that the text of a box is measured at.
pub open spec fn text_size(b: BoxModel) -> i64 {
    if b.style.contains_key("font-size"@) && px_model(b.style["font-size"@].0, b.font_size as int) is Some {
        px_model(b.style["font-size"@].0, b.font_size as int)->Some_0
    } else {
        b.font_size
    }
}

/// A text box after the horizontal step, where the text measured `extent`
/// wide and `height` high: no horizontal padding, border or margin, and the
/// measured size as its content size.
pub open spec fn with_text_width(b: BoxModel, extent: i64, height: i64) -> BoxModel {
    let d = b.dimensions;
    BoxModel {
        dimensions: Dimensions {
            content: Rect { width: extent, height, ..d.content },
            padding: EdgeSizes { left: 0, right: 0, ..d.padding },
            border: EdgeSizes { left: 0, right: 0, ..d.border },
            margin: EdgeSizes { left: 0, right: 0, ..d.margin },
        },
        ..b
    }
}

/// A box after the vertical step of block layout in a container `c`: the
/// vertical edges from its style (none for a text box), and its place below
/// what the container holds so far.
pub open spec fn with_position(b: BoxModel, c: Dimensions) -> BoxModel {
    let m = b.style;
    let fs = b.font_size as int;
    let mg = margin_model(m);
    let pd = padding_model(m);
    let bd = border_model(m);
    let d = b.dimensions;
    let text = b.content is Text;
    let margin = if text {
        EdgeSizes { top: 0, bottom: 0, ..d.margin }
    } else {
        EdgeSizes { top: px0(mg.0, fs), bottom: px0(mg.2, fs), ..d.margin }
    };
    let border = if text {
        EdgeSizes { top: 0, bottom: 0, ..d.border }
    } else {
        EdgeSizes { top: px0(bd.2.0, fs), bottom: px0(bd.3.0, fs), ..d.border }
    };
    let padding = if text {
        EdgeSizes { top: 0, bottom: 0, ..d.padding }
    } else {
        EdgeSizes { top: px0(pd.0, fs), bottom: px0(pd.2, fs), ..d.padding }
    };
    let x = clamp(clamp(clamp(c.content.x + margin.left) + border.left) + padding.left) as i64;
    let y = clamp(
        clamp(clamp(clamp(c.content.height + c.content.y) + margin.top) + border.top) + padding.top,
    ) as i64;
    BoxModel {
        dimensions: Dimensions { content: Rect { x, y, ..d.content }, margin, border, padding },
        ..b
    }
}

/// The height that a declared `height` gives a box: only a length does, and
/// never on a text box, whose height is the measured one.
pub open spec fn declared_height(b: BoxModel) -> Option<i64> {
    if !(b.content is Text) && b.style.contains_key("height"@) {
        px_model(b.style["height"@].0, b.font_size as int)
    } else {
        None
    }
}

/// `b` with the content height `h`.
pub open spec fn with_height(b: BoxModel, h: i64) -> BoxModel {
    BoxModel {
        dimensions: Dimensions {
            content: Rect { height: h, ..b.dimensions.content },
            ..b.dimensions
        },
        ..b
    }
}

/// Whether `w` is `b` after the horizontal step in the container `c`, text
/// measured by `measure`.
pub open spec fn width_done<F: Fn(&str, i64, i64) -> (i64, i64)>(b: BoxModel, c: Dimensions, w: BoxModel, measure: F) -> bool {
    match b.content {
        BoxContentModel::Text(t) => exists|s: &str, r: (i64, i64)|
            s@ == t && measure.ensures((s, text_size(b), border_box_of(c).width), r) && w
                == with_text_width(b, r.0, r.1),
        _ => w == with_block_width(b, c),
    }
}

/// Whether `a` is `b` laid out in the container `c`, text measured by
/// `measure`: the horizontal step, the vertical step, each child laid out
/// in turn below the ones before it (its font size then taken from this
/// box's), and the height: the declared one, else what the children took.
/// The witness holds the box after the horizontal step and the container
/// heights that the children were laid out at, then the total.
pub open spec fn laid_out<F: Fn(&str, i64, i64) -> (i64, i64)>(b: BoxModel, c: Dimensions, a: BoxModel, measure: F) -> bool
    decreases b,
{
    exists|wh: (BoxModel, Seq<i64>)|
        {
            let p = #[trigger] with_position(wh.0, c);
            let hs = wh.1;
            let n = b.contents.len();
            &&& width_done(b, c, wh.0, measure)
            &&& a.contents.len() == n
            &&& hs.len() == n + 1
            &&& hs[0] == p.dimensions.content.height
            &&& forall|i: int|
                0 <= i < n ==> {
                    &&& laid_out(
                        #[trigger] b.contents[i],
                        Dimensions { content: Rect { height: hs[i], ..p.dimensions.content }, ..p.dimensions },
                        BoxModel { font_size: b.contents[i].font_size, ..a.contents[i] },
                        measure,
                    )
                    &&& a.contents[i].font_size == font_size_model(a.contents[i].style, b.font_size)
                    &&& hs[i + 1] == clamp(hs[i] + margin_box_of(a.contents[i].dimensions).height)
                }
            &&& a == BoxModel {
                contents: a.contents,
                ..with_height(
                    p,
                    match declared_height(p) {
                        Some(h) => h,
                        None => hs[n as int],
                    },
                )
            }
        }
}

/// Whether `a` is `p` with its children laid out in turn, each below the
/// ones before it, the content height growing by each child's margin box:
/// `hs` are the heights the children were laid out at, then the total.
pub open spec fn children_done<F: Fn(&str, i64, i64) -> (i64, i64)>(p: BoxModel, a: BoxModel, measure: F, hs: Seq<i64>) -> bool {
    let n = p.contents.len();
    &&& a.contents.len() == n
    &&& hs.len() == n + 1
    &&& hs[0] == p.dimensions.content.height
    &&& forall|i: int|
        0 <= i < n ==> {
            &&& laid_out(
                #[trigger] p.contents[i],
                Dimensions { content: Rect { height: hs[i], ..p.dimensions.content }, ..p.dimensions },
                a.contents[i],
                measure,
            )
            &&& hs[i + 1] == clamp(hs[i] + margin_box_of(a.contents[i].dimensions).height)
        }
    &&& a == BoxModel { contents: a.contents, ..with_height(p, hs[n as int]) }
}

/// `b` after the height step: a declared height replaces the content height.
pub open spec fn height_step(b: BoxModel) -> BoxModel {
    match declared_height(b) {
        Some(h) => with_height(b, h),
        None => b,
    }
}

/// Whether `a` is `b` after the four steps of block layout in `c`: width,
/// position, children, height. The witness holds the box after the width
/// step, the heights of `children_done`, and the box after the children.
pub open spec fn block_done<F: Fn(&str, i64, i64) -> (i64, i64)>(b: BoxModel, c: Dimensions, a: BoxModel, measure: F) -> bool {
    exists|wh: (BoxModel, Seq<i64>, BoxModel)|
        {
            let p = #[trigger] with_position(wh.0, c);
            &&& width_done(b, c, wh.0, measure)
            &&& children_done(p, wh.2, measure, wh.1)
            &&& a == height_step(wh.2)
        }
}

/// A box laid out keeps its type, content, style and font size.
pub proof fn lemma_laid_out_keeps<F: Fn(&str, i64, i64) -> (i64, i64)>(b: BoxModel, c: Dimensions, a: BoxModel, measure: F)
    requires
        laid_out(b, c, a, measure),
    ensures
        a.font_size == b.font_size,
        a.style == b.style,
        a.box_type == b.box_type,
        a.content == b.content,
{
    let wh = choose|wh: (BoxModel, Seq<i64>)|
        {
            let p = #[trigger] with_position(wh.0, c);
            let hs = wh.1;
            let n = b.contents.len();
            &&& width_done(b, c, wh.0, measure)
            &&& a == BoxModel {
                contents: a.contents,
                ..with_height(
                    p,
                    match declared_height(p) {
                        Some(h) => h,
                        None => hs[n as int],
                    },
                )
            }
        };
    if let BoxContentModel::Text(t) = b.content {
        let (s, r) = choose|s: &str, r: (i64, i64)|
            s@ == t && measure.ensures((s, text_size(b), border_box_of(c).width), r) && wh.0
                == with_text_width(b, r.0, r.1);
    }
}

impl LayoutBox {
    /// The horizontal step of block layout in `container`; a text box is
    /// measured instead.
    fn calculate_block_width<F: Fn(&str, i64, i64) -> (i64, i64)>(&mut self, container: Dimensions, measure: &F)
        requires
            forall|s: &str, f: i64, w: i64| measure.requires((s, f, w)),
        ensures
            width_done(old(self)@, container, final(self)@, *measure),
            final(self).contents == old(self).contents,
            final(self).style == old(self).style,
            final(self).font_size == old(self).font_size,
            final(self).box_content_type == old(self).box_content_type,
            final(self).box_type == old(self).box_type,
    {
        if let BoxContentType::Text(_) = &self.box_content_type {
            return self.calculate_text_block_width(container, measure);
        }
        let ghost b = self@;
        let fs = self.font_size;
        let width = value_or_default(&self.style, "width", Value::Keyword("auto".to_owned()));
        let margins = get_margins(&self.style);
        let border = get_border(&self.style);
        let padding = get_padding(&self.style);
        let (w, ml, mr) = resolve_block_widths(
            container.content.width,
            fs,
            &width,
            &margins.left,
            &margins.right,
            &border.left.width,
            &border.right.width,
            &padding.left,
            &padding.right,
        );
        let pl = px_or_zero(&padding.left, fs);
        let pr = px_or_zero(&padding.right, fs);
        let bl = px_or_zero(&border.left.width, fs);
        let br = px_or_zero(&border.right.width, fs);
        self.dimensions.content.width = w;
        self.dimensions.padding.left = pl;
        self.dimensions.padding.right = pr;
        self.dimensions.border.left = bl;
        self.dimensions.border.right = br;
        self.dimensions.margin.left = ml;
        self.dimensions.margin.right = mr;
        self.border = Some(border);
        proof {
            assert(self@.contents =~= b.contents);
            assert(self@ == with_block_width(b, container));
        }
    }

    /// The horizontal step for a text box: the text is measured at most as
    /// wide as the container's border box.
    fn calculate_text_block_width<F: Fn(&str, i64, i64) -> (i64, i64)>(&mut self, container: Dimensions, measure: &F)
        requires
            forall|s: &str, f: i64, w: i64| measure.requires((s, f, w)),
            old(self).box_content_type is Text,
        ensures
            width_done(old(self)@, container, final(self)@, *measure),
            final(self).contents == old(self).contents,
            final(self).style == old(self).style,
            final(self).font_size == old(self).font_size,
            final(self).box_content_type == old(self).box_content_type,
            final(self).box_type == old(self).box_type,
    {
        let ghost b = self@;
        let size = match self.style.get("font-size") {
            Some(v) => match v.try_to_px(self.font_size) {
                Some(n) => n,
                None => self.font_size,
            },
            None => self.font_size,
        };
        let max_width = container.border_box().width;
        let (extent, height) = match &self.box_content_type {
            BoxContentType::Text(s) => {
                let t = s.as_str();
                let r = measure(t, size, max_width);
                proof {
                    assert(t@ == s@);
                    assert(width_done(b, container, with_text_width(b, r.0, r.1), *measure));
                }
                r
            },
            _ => (0, 0),
        };
        self.dimensions.padding.left = 0;
        self.dimensions.padding.right = 0;
        self.dimensions.border.left = 0;
        self.dimensions.border.right = 0;
        self.dimensions.margin.left = 0;
        self.dimensions.margin.right = 0;
        self.dimensions.content.width = extent;
        self.dimensions.content.height = height;
        proof {
            assert(self@.contents =~= b.contents);
            assert(self@ == with_text_width(b, extent, height));
        }
    }

    /// The vertical step of block layout in `containing_block`.
    fn calculate_block_position(&mut self, containing_block: Dimensions)
        ensures
            final(self)@ == with_position(old(self)@, containing_block),
            final(self).contents == old(self).contents,
            final(self).style == old(self).style,
            final(self).font_size == old(self).font_size,
            final(self).box_content_type == old(self).box_content_type,
            final(self).box_type == old(self).box_type,
    {
        let ghost b = self@;
        let fs = self.font_size;
        let margins = get_margins(&self.style);
        let border = get_border(&self.style);
        let padding = get_padding(&self.style);
        let text = match &self.box_content_type {
            BoxContentType::Text(_) => true,
            _ => false,
        };
        let mt = if text { 0 } else { px_or_zero(&margins.top, fs) };
        let mb = if text { 0 } else { px_or_zero(&margins.bottom, fs) };
        let bt = if text { 0 } else { px_or_zero(&border.top.width, fs) };
        let bb = if text { 0 } else { px_or_zero(&border.bottom.width, fs) };
        let pt = if text { 0 } else { px_or_zero(&padding.top, fs) };
        let pb = if text { 0 } else { px_or_zero(&padding.bottom, fs) };
        self.dimensions.margin.top = mt;
        self.dimensions.margin.bottom = mb;
        self.dimensions.border.top = bt;
        self.dimensions.border.bottom = bb;
        self.dimensions.padding.top = pt;
        self.dimensions.padding.bottom = pb;
        let d = self.dimensions;
        self.dimensions.content.x = sat_add(
            sat_add(sat_add(containing_block.content.x, d.margin.left), d.border.left),
            d.padding.left,
        );
        self.dimensions.content.y = sat_add(
            sat_add(
                sat_add(
                    sat_add(containing_block.content.height, containing_block.content.y),
                    d.margin.top,
                ),
                d.border.top,
            ),
            d.padding.top,
        );
        proof {
            assert(self@.contents =~= b.contents);
        }
    }

    /// Where a length is declared as `height`, it replaces the content
    /// height; text boxes keep their measured height.
    fn calculate_block_height(&mut self)
        ensures
            final(self)@ == match declared_height(old(self)@) {
                Some(h) => with_height(old(self)@, h),
                None => old(self)@,
            },
            final(self).contents == old(self).contents,
            final(self).style == old(self).style,
            final(self).font_size == old(self).font_size,
            final(self).box_content_type == old(self).box_content_type,
            final(self).box_type == old(self).box_type,
    {
        let ghost b = self@;
        if let BoxContentType::Text(_) = &self.box_content_type {
            return;
        }
        match self.style.get("height") {
            Some(v) => match v.try_to_px(self.font_size) {
                Some(h) => {
                    self.dimensions.content.height = h;
                    assert(self@.contents =~= b.contents);
                },
                None => {},
            },
            None => {},
        }
    }
}

impl LayoutBox {
    /// Lays out each child in turn against this box, each below the ones
    /// before it, the content height growing by each child's margin box.
    #[verifier::spinoff_prover]
    #[verifier::rlimit(60)]
    fn layout_block_children<F: Fn(&str, i64, i64) -> (i64, i64)>(&mut self, measure: &F)
        requires
            forall|s: &str, f: i64, w: i64| measure.requires((s, f, w)),
        ensures
            exists|hs: Seq<i64>| #[trigger] children_done(old(self)@, final(self)@, *measure, hs),
            final(self).style == old(self).style,
            final(self).font_size == old(self).font_size,
            final(self).box_content_type == old(self).box_content_type,
            final(self).box_type == old(self).box_type,
        decreases old(self).contents, 0nat,
    {
        let ghost p = self@;
        let n = self.contents.len();
        let ghost mut hs: Seq<i64> = seq![self.dimensions.content.height];
        let mut i: usize = 0;
        while i < n
            invariant
                0 <= i <= n,
                n == p.contents.len(),
                p == old(self)@,
                self.contents@.len() == n,
                hs.len() == i + 1,
                hs[0] == p.dimensions.content.height,
                self@ == (BoxModel { contents: self@.contents, ..with_height(p, hs[i as int]) }),
                forall|k: int|
                    0 <= k < i ==> {
                        &&& laid_out(
                            #[trigger] p.contents[k],
                            Dimensions { content: Rect { height: hs[k], ..p.dimensions.content }, ..p.dimensions },
                            self@.contents[k],
                            *measure,
                        )
                        &&& hs[k + 1] == clamp(hs[k] + margin_box_of(self@.contents[k].dimensions).height)
                    },
                forall|k: int| i <= k < n ==> #[trigger] self.contents@[k] == old(self).contents@[k],
                self.style == old(self).style,
                self.font_size == old(self).font_size,
                self.box_content_type == old(self).box_content_type,
                self.box_type == old(self).box_type,
                forall|s: &str, f: i64, w: i64| measure.requires((s, f, w)),
            decreases n - i,
        {
            let dims = self.dimensions;
            let ghost prev = self.contents@;
            let ghost prev_model = self@;
            proof {
                vstd::std_specs::vec::axiom_vec_index_decreases(old(self).contents, i as int);
                assert(decreases_to!(old(self).contents[i as int] => old(self).contents[i as int].contents));
                assert(p.contents[i as int] == self.contents@[i as int]@);
            }
            self.contents[i].layout(dims, measure);
            let ghost laid = self.contents@[i as int]@;
            assert(laid_out(prev[i as int]@, dims, laid, *measure));
            let h = self.contents[i].dimensions.margin_box().height;
            let total = sat_add(self.dimensions.content.height, h);
            self.dimensions.content.height = total;
            let ghost old_hs = hs;
            proof {
                hs = hs.push(total);
                assert(hs[i as int] == old_hs[i as int]);
                assert forall|k: int| 0 <= k < n implies #[trigger] self@.contents[k] == self.contents@[k]@ by {}
                assert forall|k: int| 0 <= k < n && k != i implies #[trigger] self.contents@[k] == prev[k] by {}
                assert forall|k: int| 0 <= k < n && k != i implies #[trigger] prev_model.contents[k] == prev[k]@ by {}
                assert(dims == Dimensions { content: Rect { height: hs[i as int], ..p.dimensions.content }, ..p.dimensions });
                assert forall|k: int| 0 <= k < i + 1 implies {
                    &&& laid_out(
                        #[trigger] p.contents[k],
                        Dimensions { content: Rect { height: hs[k], ..p.dimensions.content }, ..p.dimensions },
                        self@.contents[k],
                        *measure,
                    )
                    &&& hs[k + 1] == clamp(hs[k] + margin_box_of(self@.contents[k].dimensions).height)
                } by {
                    assert(self@.contents[k] == self.contents@[k]@);
                    if k < i {
                        assert(self.contents@[k] == prev[k]);
                        assert(prev_model.contents[k] == prev[k]@);
                        assert(hs[k] == old_hs[k]);
                        assert(hs[k + 1] == old_hs[k + 1]);
                    } else {
                        assert(p.contents[k] == prev[k]@);
                        assert(dims.content.height == old_hs[k]);
                        assert(self@.contents[k] == laid);
                        assert(laid_out(p.contents[k], dims, self@.contents[k], *measure));
                    }
                }
            }
            i += 1;
        }
        proof {
            assert(children_done(p, self@, *measure, hs));
        }
    }

    /// The four steps of block layout in `container`.
    fn layout_block<F: Fn(&str, i64, i64) -> (i64, i64)>(&mut self, container: Dimensions, measure: &F)
        requires
            forall|s: &str, f: i64, w: i64| measure.requires((s, f, w)),
        ensures
            block_done(old(self)@, container, final(self)@, *measure),
            final(self).style == old(self).style,
            final(self).font_size == old(self).font_size,
            final(self).box_content_type == old(self).box_content_type,
            final(self).box_type == old(self).box_type,
        decreases old(self).contents, 1nat,
    {
        self.calculate_block_width(container, measure);
        let ghost w = self@;
        self.calculate_block_position(container);
        assert(self.contents == old(self).contents);
        self.layout_block_children(measure);
        let ghost mid = self@;
        self.calculate_block_height();
        proof {
            let hs = choose|hs: Seq<i64>| #[trigger] children_done(with_position(w, container), mid, *measure, hs);
            assert(height_step(mid) == self@);
            let wh = (w, hs, mid);
            assert(with_position(wh.0, container) == with_position(w, container));
        }
    }

    /// Lays this box out in `container`, then gives each child its font
    /// size from this box's. Every box is laid out by the block algorithm,
    /// inline and anonymous ones included.
    pub fn layout<F: Fn(&str, i64, i64) -> (i64, i64)>(&mut self, container: Dimensions, measure: &F)
        requires
            forall|s: &str, f: i64, w: i64| measure.requires((s, f, w)),
        ensures
            laid_out(old(self)@, container, final(self)@, *measure),
            final(self).style == old(self).style,
            final(self).font_size == old(self).font_size,
            final(self).box_content_type == old(self).box_content_type,
            final(self).box_type == old(self).box_type,
        decreases old(self).contents, 2nat,
    {
        let ghost b = self@;
        self.layout_block(container, measure);
        let ghost a = self@;
        let fs = self.font_size;
        let n = self.contents.len();
        let mut i: usize = 0;
        while i < n
            invariant
                0 <= i <= n,
                n == a.contents.len(),
                self.contents@.len() == n,
                fs == b.font_size,
                self@ == (BoxModel { contents: self@.contents, ..a }),
                forall|k: int| 0 <= k < i ==> #[trigger] self@.contents[k] == (BoxModel { font_size: font_size_model(a.contents[k].style, fs), ..a.contents[k] }),
                forall|k: int| i <= k < n ==> #[trigger] self@.contents[k] == a.contents[k],
                self.style == old(self).style,
                self.font_size == old(self).font_size,
                self.box_content_type == old(self).box_content_type,
                self.box_type == old(self).box_type,
            decreases n - i,
        {
            let ghost prev = self.contents@;
            let ghost prev_model = self@;
            proof {
                assert(prev_model.contents[i as int] == prev[i as int]@);
            }
            let f = calculate_font_size(&self.contents[i].style, fs);
            self.contents[i].font_size = f;
            proof {
                assert forall|k: int| 0 <= k < n implies #[trigger] self@.contents[k] == self.contents@[k]@ by {}
                assert forall|k: int| 0 <= k < n && k != i implies #[trigger] self.contents@[k] == prev[k] by {}
                assert forall|k: int| 0 <= k < n && k != i implies #[trigger] prev_model.contents[k] == prev[k]@ by {}
                let nc = self.contents@[i as int];
                let oc = prev[i as int];
                assert(nc.contents == oc.contents);
                assert(nc.style == oc.style);
                assert(nc.dimensions == oc.dimensions);
                assert(nc.border == oc.border);
                assert(nc.box_type == oc.box_type);
                assert(nc.box_content_type == oc.box_content_type);
                assert(nc.font_size == f);
                assert(nc@.contents =~= oc@.contents);
                assert(nc@ == BoxModel { font_size: f, ..oc@ });
                assert forall|k: int| 0 <= k < i + 1 implies #[trigger] self@.contents[k] == (BoxModel { font_size: font_size_model(a.contents[k].style, fs), ..a.contents[k] }) by {
                    if k < i {
                        assert(prev_model.contents[k] == (BoxModel { font_size: font_size_model(a.contents[k].style, fs), ..a.contents[k] }));
                        assert(self@.contents[k] == self.contents@[k]@);
                        assert(self.contents@[k] == prev[k]);
                    } else {
                        assert(prev_model.contents[k] == a.contents[k]);
                        assert(self@.contents[k] == self.contents@[k]@);
                    }
                }
                assert forall|k: int| i + 1 <= k < n implies #[trigger] self@.contents[k] == a.contents[k] by {
                    assert(prev_model.contents[k] == a.contents[k]);
                    assert(self@.contents[k] == self.contents@[k]@);
                    assert(self.contents@[k] == prev[k]);
                }
            }
            i += 1;
        }
        proof {
            let wh3 = choose|wh: (BoxModel, Seq<i64>, BoxModel)|
                {
                    let p = #[trigger] with_position(wh.0, container);
                    &&& width_done(b, container, wh.0, *measure)
                    &&& children_done(p, wh.2, *measure, wh.1)
                    &&& a == height_step(wh.2)
                };
            let w = wh3.0;
            let hs = wh3.1;
            let mid = wh3.2;
            let p = with_position(w, container);
            assert forall|k: int| 0 <= k < b.contents.len() implies #[trigger] b.contents[k] == b.contents[k] && (BoxModel { font_size: b.contents[k].font_size, ..self@.contents[k] }) == mid.contents[k] by {
                lemma_laid_out_keeps(
                    p.contents[k],
                    Dimensions { content: Rect { height: hs[k], ..p.dimensions.content }, ..p.dimensions },
                    mid.contents[k],
                    *measure,
                );
            }
            let wh = (w, hs);
            assert(with_position(wh.0, container) == p);
        }
    }
}

/// The box tree of `root` laid out in a viewport `viewport_size.0` pixels
/// wide, text measured by `measure` as (width, height) for a text, a font
/// size and a largest width.
pub fn create_layout<F: Fn(&str, i64, i64) -> (i64, i64)>(root: &StyledElement, viewport_size: (usize, usize), measure: &F) -> (r: LayoutBox)
    requires
        forall|s: &str, f: i64, w: i64| measure.requires((s, f, w)),
    ensures
        laid_out(build_model(root@), viewport(viewport_size.0), r@, *measure),
{
    let width: i64 = if viewport_size.0 as u128 > i64::MAX as u128 {
        i64::MAX
    } else {
        viewport_size.0 as i64
    };
    let container = Dimensions {
        content: Rect { x: 0, y: 0, width, height: 0 },
        margin: EdgeSizes::zero(),
        border: EdgeSizes::zero(),
        padding: EdgeSizes::zero(),
    };
    assert(container == viewport(viewport_size.0));
    let mut root_box = build_layout_tree(root);
    root_box.layout(container, measure);
    root_box
}

/// The containing block of the root: `width` pixels wide (at most
/// `i64::MAX`), no height yet, at the origin.
pub open spec fn viewport(width: usize) -> Dimensions {
    Dimensions {
        content: Rect {
            x: 0,
            y: 0,
            width: if width > i64::MAX {
                i64::MAX
            } else {
                width as i64
            },
            height: 0,
        },
        margin: EdgeSizes { left: 0, right: 0, top: 0, bottom: 0 },
        border: EdgeSizes { left: 0, right: 0, top: 0, bottom: 0 },
        padding: EdgeSizes { left: 0, right: 0, top: 0, bottom: 0 },
    }
}

} // verus!
