//! The cascade: which declarations apply to each element of a document.
use vstd::prelude::*;
use crate::css::{listed, Declaration, Ruleset, Selector, SimpleSelector, Value, ValueModel};
use crate::dom::{DOMAttributes, DOMContent, DOMElement};
use crate::text::{contains_str, contains_word, has_word, str_eq};

verus! {

broadcast use vstd::std_specs::vec::group_vec_axioms;

/// The weight of a selector: counts of (attributes, IDs, classes and
/// pseudo-classes, types).
#[derive(Debug, Clone, Copy, PartialEq, Eq, Structural)]
pub struct Specificity(pub usize, pub usize, pub usize, pub usize);

/// `a + b`, saturated at `usize::MAX`.
pub open spec fn sat_usize(a: usize, b: usize) -> usize {
    if a + b > usize::MAX {
        usize::MAX
    } else {
        (a + b) as usize
    }
}

impl Specificity {
    /// The number by which specificities are ordered.
    pub open spec fn value(self) -> int {
        self.0 * 1000 + self.1 * 100 + self.2 * 10 + self.3
    }

    /// The component-wise sum, each component saturated.
    pub open spec fn plus(self, rhs: Specificity) -> Specificity {
        Specificity(
            sat_usize(self.0, rhs.0),
            sat_usize(self.1, rhs.1),
            sat_usize(self.2, rhs.2),
            sat_usize(self.3, rhs.3),
        )
    }

    /// The number by which specificities are ordered.
    pub fn weight(&self) -> (r: u128)
        ensures
            r == self.value(),
    {
        self.0 as u128 * 1000 + self.1 as u128 * 100 + self.2 as u128 * 10 + self.3 as u128
    }

    /// The component-wise sum of two specificities.
    pub fn add(self, rhs: Specificity) -> (r: Specificity)
        ensures
            r == self.plus(rhs),
    {
        Specificity(
            self.0.saturating_add(rhs.0),
            self.1.saturating_add(rhs.1),
            self.2.saturating_add(rhs.2),
            self.3.saturating_add(rhs.3),
        )
    }
}

impl PartialOrd for Specificity {
    fn partial_cmp(&self, other: &Specificity) -> (r: Option<core::cmp::Ordering>) {
        let a = self.weight();
        let b = other.weight();
        if a < b {
            Some(core::cmp::Ordering::Less)
        } else if a > b {
            Some(core::cmp::Ordering::Greater)
        } else {
            Some(core::cmp::Ordering::Equal)
        }
    }
}

impl vstd::std_specs::cmp::PartialOrdSpecImpl for Specificity {
    open spec fn obeys_partial_cmp_spec() -> bool {
        true
    }

    open spec fn partial_cmp_spec(&self, other: &Specificity) -> Option<core::cmp::Ordering> {
        if self.value() < other.value() {
            Some(core::cmp::Ordering::Less)
        } else if self.value() > other.value() {
            Some(core::cmp::Ordering::Greater)
        } else {
            Some(core::cmp::Ordering::Equal)
        }
    }
}

/// The specificity of a simple selector.
pub open spec fn simple_specificity(sel: SimpleSelector) -> Specificity {
    match sel {
        SimpleSelector::Type(_) => Specificity(0, 0, 0, 1),
        SimpleSelector::Universal => Specificity(0, 0, 0, 0),
        SimpleSelector::Attribute(_) => Specificity(1, 0, 0, 0),
        SimpleSelector::Class(_) => Specificity(0, 0, 1, 0),
        SimpleSelector::PseudoClass(_) => Specificity(0, 0, 1, 0),
        SimpleSelector::ID(_) => Specificity(0, 1, 0, 0),
    }
}

/// The sum of the specificities of `sels`.
pub open spec fn compound_specificity(sels: Seq<SimpleSelector>) -> Specificity
    decreases sels.len(),
{
    if sels.len() == 0 {
        Specificity(0, 0, 0, 0)
    } else {
        compound_specificity(sels.drop_last()).plus(simple_specificity(sels.last()))
    }
}

/// The specificity of a selector: a compound sums its parts, a combinator
/// its two sides.
pub open spec fn selector_specificity(sel: Selector) -> Specificity
    decreases sel,
{
    match sel {
        Selector::Simple(s) => simple_specificity(s),
        Selector::Compound(v) => compound_specificity(v@),
        Selector::Combinator(l, _, r) => selector_specificity(*l).plus(selector_specificity(*r)),
    }
}

impl Specificity {
    /// The sum of `list`.
    pub fn sum(list: &[Specificity]) -> (r: Specificity)
        ensures
            r == list@.fold_left(Specificity(0, 0, 0, 0), |acc: Specificity, x: Specificity| acc.plus(x)),
    {
        let mut acc = Specificity(0, 0, 0, 0);
        let mut i: usize = 0;
        while i < list.len()
            invariant
                0 <= i <= list@.len(),
                acc == list@.subrange(0, i as int).fold_left(
                    Specificity(0, 0, 0, 0),
                    |acc: Specificity, x: Specificity| acc.plus(x),
                ),
            decreases list@.len() - i,
        {
            assert(list@.subrange(0, i + 1).drop_last() =~= list@.subrange(0, i as int));
            acc = acc.add(list[i]);
            i += 1;
        }
        assert(list@.subrange(0, list@.len() as int) =~= list@);
        acc
    }

    /// The specificity of a simple selector.
    pub fn from_simple_selector(sel: &SimpleSelector) -> (r: Specificity)
        ensures
            r == simple_specificity(*sel),
    {
        match sel {
            SimpleSelector::Type(_) => Specificity(0, 0, 0, 1),
            SimpleSelector::Universal => Specificity(0, 0, 0, 0),
            SimpleSelector::Attribute(_) => Specificity(1, 0, 0, 0),
            SimpleSelector::Class(_) => Specificity(0, 0, 1, 0),
            SimpleSelector::PseudoClass(_) => Specificity(0, 0, 1, 0),
            SimpleSelector::ID(_) => Specificity(0, 1, 0, 0),
        }
    }

    /// The specificity of a selector.
    pub fn from_selector(sel: &Selector) -> (r: Specificity)
        ensures
            r == selector_specificity(*sel),
        decreases sel,
    {
        match sel {
            Selector::Simple(s) => Specificity::from_simple_selector(s),
            Selector::Compound(v) => {
                let mut acc = Specificity(0, 0, 0, 0);
                let mut i: usize = 0;
                while i < v.len()
                    invariant
                        0 <= i <= v@.len(),
                        acc == compound_specificity(v@.subrange(0, i as int)),
                    decreases v@.len() - i,
                {
                    assert(v@.subrange(0, i + 1).drop_last() =~= v@.subrange(0, i as int));
                    acc = acc.add(Specificity::from_simple_selector(&v[i]));
                    i += 1;
                }
                assert(v@.subrange(0, v@.len() as int) =~= v@);
                acc
            },
            Selector::Combinator(l, _, r) => {
                let a = Specificity::from_selector(l);
                let b = Specificity::from_selector(r);
                a.add(b)
            },
        }
    }
}

/// What a style map holds: for each property, the winning value and the
/// specificity that won it.
pub type StyleModel = Map<Seq<char>, (ValueModel, Specificity)>;

/// The first entry of `entries` for `key`, as a model.
pub open spec fn style_lookup(entries: Seq<(String, Value, Specificity)>, key: Seq<char>) -> Option<
    (ValueModel, Specificity),
>
    decreases entries.len(),
{
    if entries.len() == 0 {
        None
    } else if entries[0].0@ == key {
        Some((entries[0].1@, entries[0].2))
    } else {
        style_lookup(entries.drop_first(), key)
    }
}

/// `m` after a candidate `(value, spec)` for `key`: it replaces the stored
/// entry unless that entry's specificity is higher.
pub open spec fn insert_spec(m: StyleModel, key: Seq<char>, value: ValueModel, spec: Specificity) -> StyleModel {
    if m.contains_key(key) && spec.value() < m[key].1.value() {
        m
    } else {
        m.insert(key, (value, spec))
    }
}

/// The resolved properties of one node.
pub struct StyleMap {
    entries: Vec<(String, Value, Specificity)>,
}

impl View for StyleMap {
    type V = StyleModel;

    closed spec fn view(&self) -> StyleModel {
        Map::new(
            |k: Seq<char>| style_lookup(self.entries@, k) is Some,
            |k: Seq<char>| style_lookup(self.entries@, k)->Some_0,
        )
    }
}

/// The first entry for `key` is the one at `i`.
proof fn lemma_lookup_at(entries: Seq<(String, Value, Specificity)>, key: Seq<char>, i: int)
    requires
        0 <= i < entries.len(),
        entries[i].0@ == key,
        forall|j: int| 0 <= j < i ==> (#[trigger] entries[j]).0@ != key,
    ensures
        style_lookup(entries, key) == Some((entries[i].1@, entries[i].2)),
    decreases i,
{
    if i > 0 {
        lemma_lookup_at(entries.drop_first(), key, i - 1);
    }
}

/// No entry is for `key`.
proof fn lemma_lookup_none(entries: Seq<(String, Value, Specificity)>, key: Seq<char>)
    requires
        forall|j: int| 0 <= j < entries.len() ==> (#[trigger] entries[j]).0@ != key,
    ensures
        style_lookup(entries, key) is None,
    decreases entries.len(),
{
    if entries.len() > 0 {
        lemma_lookup_none(entries.drop_first(), key);
    }
}

/// Changing the entry at `i`, which is the first for its key, leaves every
/// other key as it was.
proof fn lemma_lookup_update(
    entries: Seq<(String, Value, Specificity)>,
    i: int,
    e: (String, Value, Specificity),
    key: Seq<char>,
)
    requires
        0 <= i < entries.len(),
        e.0@ == entries[i].0@,
        forall|j: int| 0 <= j < i ==> (#[trigger] entries[j]).0@ != entries[i].0@,
        key != entries[i].0@,
    ensures
        style_lookup(entries.update(i, e), key) == style_lookup(entries, key),
    decreases i,
{
    let u = entries.update(i, e);
    if i == 0 {
        assert(u.drop_first() =~= entries.drop_first());
    } else {
        assert(u[0] == entries[0]);
        if entries[0].0@ != key {
            assert(u.drop_first() =~= entries.drop_first().update(i - 1, e));
            lemma_lookup_update(entries.drop_first(), i - 1, e, key);
        }
    }
}

/// Appending an entry for a new key leaves every other key as it was.
proof fn lemma_lookup_push(entries: Seq<(String, Value, Specificity)>, e: (String, Value, Specificity), key: Seq<char>)
    requires
        key != e.0@,
    ensures
        style_lookup(entries.push(e), key) == style_lookup(entries, key),
    decreases entries.len(),
{
    let p = entries.push(e);
    if entries.len() == 0 {
        assert(p.drop_first() =~= Seq::<(String, Value, Specificity)>::empty());
        assert(p[0] == e);
        assert(style_lookup(p.drop_first(), key) is None);
        assert(style_lookup(entries, key) is None);
    } else {
        assert(p[0] == entries[0]);
        if entries[0].0@ != key {
            assert(p.drop_first() =~= entries.drop_first().push(e));
            lemma_lookup_push(entries.drop_first(), e, key);
        }
    }
}

/// Entries that agree one by one have the same lookups.
proof fn lemma_lookup_same(a: Seq<(String, Value, Specificity)>, b: Seq<(String, Value, Specificity)>, key: Seq<char>)
    requires
        a.len() == b.len(),
        forall|i: int|
            0 <= i < a.len() ==> (#[trigger] a[i]).0@ == b[i].0@ && a[i].1@ == b[i].1@ && a[i].2
                == b[i].2,
    ensures
        style_lookup(a, key) == style_lookup(b, key),
    decreases a.len(),
{
    if a.len() > 0 {
        assert(a[0].0@ == b[0].0@);
        lemma_lookup_same(a.drop_first(), b.drop_first(), key);
    }
}

impl StyleMap {
    /// Each property has at most one entry.
    #[verifier::type_invariant]
    spec fn wf(self) -> bool {
        forall|i: int, j: int|
            0 <= i < j < self.entries@.len() ==> (#[trigger] self.entries@[i]).0@
                != (#[trigger] self.entries@[j]).0@
    }

    /// A copy of this map.
    pub fn copy(&self) -> (r: StyleMap)
        ensures
            r@ == self@,
    {
        let mut entries: Vec<(String, Value, Specificity)> = Vec::new();
        let mut i: usize = 0;
        while i < self.entries.len()
            invariant
                0 <= i <= self.entries@.len(),
                entries@.len() == i,
                forall|j: int|
                    0 <= j < i ==> (#[trigger] entries@[j]).0@ == self.entries@[j].0@ && entries@[j].1@
                        == self.entries@[j].1@ && entries@[j].2 == self.entries@[j].2,
            decreases self.entries@.len() - i,
        {
            let e = &self.entries[i];
            entries.push((e.0.clone(), e.1.deep_copy(), e.2));
            i += 1;
        }
        proof {
            use_type_invariant(self);
            assert forall|a: int, b: int| 0 <= a < b < entries@.len() implies (#[trigger] entries@[a]).0@
                != (#[trigger] entries@[b]).0@ by {
                assert(self.entries@[a].0@ != self.entries@[b].0@);
            }
        }
        let r = StyleMap { entries };
        proof {
            assert forall|k: Seq<char>| style_lookup(r.entries@, k) == style_lookup(self.entries@, k) by {
                lemma_lookup_same(r.entries@, self.entries@, k);
            }
            assert(r@ =~= self@);
        }
        r
    }

    /// A map with no property.
    pub fn new() -> (r: StyleMap)
        ensures
            r@ == Map::<Seq<char>, (ValueModel, Specificity)>::empty(),
    {
        let r = StyleMap { entries: Vec::new() };
        assert(r@ =~= Map::<Seq<char>, (ValueModel, Specificity)>::empty());
        r
    }

    /// The value that won the property `name`, if any.
    pub fn get(&self, name: &str) -> (r: Option<&Value>)
        ensures
            match r {
                Some(v) => self@.contains_key(name@) && self@[name@].0 == v@,
                None => !self@.contains_key(name@),
            },
    {
        let mut i: usize = 0;
        while i < self.entries.len()
            invariant
                0 <= i <= self.entries@.len(),
                forall|j: int| 0 <= j < i ==> (#[trigger] self.entries@[j]).0@ != name@,
            decreases self.entries@.len() - i,
        {
            if str_eq(self.entries[i].0.as_str(), name) {
                proof {
                    lemma_lookup_at(self.entries@, name@, i as int);
                }
                return Some(&self.entries[i].1);
            }
            i += 1;
        }
        proof {
            lemma_lookup_none(self.entries@, name@);
        }
        None
    }

    /// Offers `value` for the property `key` at `spec`: it is stored unless
    /// the stored value won with a higher specificity.
    pub fn insert(&mut self, key: &str, value: Value, spec: Specificity)
        ensures
            final(self)@ == insert_spec(old(self)@, key@, value@, spec),
    {
        proof {
            use_type_invariant(&*self);
        }
        let mut entries: Vec<(String, Value, Specificity)> = Vec::new();
        std::mem::swap(&mut entries, &mut self.entries);
        let ghost before = entries@;
        assert(before == old(self).entries@);
        let mut i: usize = 0;
        let mut found = false;
        while i < entries.len()
            invariant_except_break
                !found,
            invariant
                0 <= i <= entries@.len(),
                entries@ == before,
                forall|j: int| 0 <= j < i ==> (#[trigger] entries@[j]).0@ != key@,
            ensures
                0 <= i <= entries@.len(),
                entries@ == before,
                forall|j: int| 0 <= j < i ==> (#[trigger] entries@[j]).0@ != key@,
                found ==> i < entries@.len() && entries@[i as int].0@ == key@,
                !found ==> i == entries@.len(),
            decreases entries@.len() - i,
        {
            if str_eq(entries[i].0.as_str(), key) {
                found = true;
                break;
            }
            i += 1;
        }
        if found {
            proof {
                lemma_lookup_at(before, key@, i as int);
            }
            if spec.weight() >= entries[i].2.weight() {
                let e = (key.to_owned(), value, spec);
                entries.set(i, e);
                proof {
                    assert forall|k: Seq<char>| k != key@ implies style_lookup(entries@, k)
                        == style_lookup(before, k) by {
                        lemma_lookup_update(before, i as int, e, k);
                    }
                    lemma_lookup_at(entries@, key@, i as int);
                    assert forall|a: int, b: int| 0 <= a < b < entries@.len() implies (#[trigger] entries@[a]).0@
                        != (#[trigger] entries@[b]).0@ by {
                        assert(before[a].0@ != before[b].0@);
                    }
                }
            }
        } else {
            proof {
                lemma_lookup_none(before, key@);
            }
            let e = (key.to_owned(), value, spec);
            entries.push(e);
            proof {
                assert forall|k: Seq<char>| k != key@ implies style_lookup(entries@, k)
                    == style_lookup(before, k) by {
                    lemma_lookup_push(before, e, k);
                }
                lemma_lookup_at(entries@, key@, i as int);
                assert forall|a: int, b: int| 0 <= a < b < entries@.len() implies (#[trigger] entries@[a]).0@
                    != (#[trigger] entries@[b]).0@ by {
                    if b < before.len() {
                        assert(before[a].0@ != before[b].0@);
                    } else {
                        assert(entries@[a] == before[a]);
                    }
                }
            }
        }
        self.entries = entries;
        assert(self@ =~= insert_spec(old(self)@, key@, value@, spec));
    }
}

/// The mathematical form of an element of the styled tree.
pub struct ElementModel {
    pub name: Seq<char>,
    pub attributes: DOMAttributes,
    pub contents: Seq<ContentModel>,
    pub styles: StyleModel,
}

/// The mathematical form of a child in the styled tree.
pub enum ContentModel {
    Element(ElementModel),
    Text(Seq<char>, StyleModel),
}

/// An element of the styled tree.
pub struct StyledElement {
    pub name: String,
    pub attributes: DOMAttributes,
    pub contents: Vec<StyledContent>,
    pub styles: StyleMap,
}

/// A run of text in the styled tree.
pub struct StyledString {
    pub contents: String,
    pub styles: StyleMap,
}

/// A child in the styled tree.
pub enum StyledContent {
    Element(StyledElement),
    Text(StyledString),
}

/// The model of a styled element.
pub open spec fn element_model(e: StyledElement) -> ElementModel
    decreases e,
{
    ElementModel {
        name: e.name@,
        attributes: e.attributes,
        contents: Seq::new(
            e.contents.len() as nat,
            |i: int|
                if 0 <= i < e.contents.len() {
                    match e.contents[i] {
                        StyledContent::Element(c) => ContentModel::Element(element_model(c)),
                        StyledContent::Text(t) => ContentModel::Text(t.contents@, t.styles@),
                    }
                } else {
                    ContentModel::Text(Seq::empty(), Map::empty())
                },
        ),
        styles: e.styles@,
    }
}

impl View for StyledElement {
    type V = ElementModel;

    open spec fn view(&self) -> ElementModel {
        element_model(*self)
    }
}

impl View for StyledContent {
    type V = ContentModel;

    open spec fn view(&self) -> ContentModel {
        match *self {
            StyledContent::Element(c) => ContentModel::Element(c@),
            StyledContent::Text(t) => ContentModel::Text(t.contents@, t.styles@),
        }
    }
}

/// The values that are present, in order.
pub open spec fn kept<A>(items: Seq<Option<A>>) -> Seq<A>
    decreases items.len(),
{
    if items.len() == 0 {
        seq![]
    } else {
        match items[0] {
            Some(x) => seq![x] + kept(items.drop_first()),
            None => kept(items.drop_first()),
        }
    }
}

/// The tags of the elements that produce no box.
pub open spec fn excluded_names() -> Seq<Seq<char>> {
    seq![
        "head"@,
        "meta"@,
        "title"@,
        "link"@,
        "style"@,
        "script"@,
        "datalist"@,
        "param"@,
        "noframes"@,
        "template"@,
    ]
}

/// The properties whose values descendants take over.
pub open spec fn inherited_names() -> Seq<Seq<char>> {
    seq![
        "azimuth"@,
        "border-collapse"@,
        "border-spacing"@,
        "caption-side"@,
        "color"@,
        "cursor"@,
        "direction"@,
        "elevation"@,
        "empty-cells"@,
        "font-family"@,
        "font-size"@,
        "font-style"@,
        "font-variant"@,
        "font-weight"@,
        "font"@,
        "letter-spacing"@,
        "line-height"@,
        "list-style-image"@,
        "list-style-position"@,
        "list-style-type"@,
        "list-style"@,
        "orphans"@,
        "pitch-range"@,
        "pitch"@,
        "quotes"@,
        "richness"@,
        "speak-header"@,
        "speak-numeral"@,
        "speak-punctuation"@,
        "speak"@,
        "speech-rate"@,
        "stress"@,
        "text-align"@,
        "text-indent"@,
        "text-transform"@,
        "visibility"@,
        "voice-family"@,
        "volume"@,
        "white-space"@,
        "widows"@,
        "word-spacing"@,
    ]
}

/// The styled form of a document element, before any rule: no styles, and
/// the excluded elements left out with everything below them.
pub open spec fn styled_model(d: DOMElement) -> ElementModel
    decreases d, 1nat,
{
    ElementModel {
        name: d.name@,
        attributes: d.attributes,
        contents: kept(styled_items(d)),
        styles: Map::empty(),
    }
}

/// The styled form of each child of `d`; `None` for one that is left out.
pub open spec fn styled_items(d: DOMElement) -> Seq<Option<ContentModel>>
    decreases d, 0nat,
{
    Seq::new(
        d.contents.len() as nat,
        |i: int|
            if 0 <= i < d.contents.len() {
                match d.contents[i] {
                    DOMContent::Text(t) => Some(ContentModel::Text(t@, Map::empty())),
                    DOMContent::Element(c) => if listed(excluded_names(), c.name@) {
                        None
                    } else {
                        Some(ContentModel::Element(styled_model(c)))
                    },
                }
            } else {
                None
            },
    )
}

/// Certain elements are not copied into the style tree: they produce no box.
pub fn element_is_excluded(elt: &DOMElement) -> (r: bool)
    ensures
        r == listed(excluded_names(), elt.name@),
{
    let names: [&str; 10] = [
        "head",
        "meta",
        "title",
        "link",
        "style",
        "script",
        "datalist",
        "param",
        "noframes",
        "template",
    ];
    let r = contains_str(&names, elt.name.as_str());
    proof {
        assert(names@.map_values(|n: &str| n@) =~= excluded_names());
    }
    r
}

/// Whether descendants take over the property `name`.
pub fn is_inherited(name: &str) -> (r: bool)
    ensures
        r == listed(inherited_names(), name@),
{
    let names: [&str; 41] = [
        "azimuth",
        "border-collapse",
        "border-spacing",
        "caption-side",
        "color",
        "cursor",
        "direction",
        "elevation",
        "empty-cells",
        "font-family",
        "font-size",
        "font-style",
        "font-variant",
        "font-weight",
        "font",
        "letter-spacing",
        "line-height",
        "list-style-image",
        "list-style-position",
        "list-style-type",
        "list-style",
        "orphans",
        "pitch-range",
        "pitch",
        "quotes",
        "richness",
        "speak-header",
        "speak-numeral",
        "speak-punctuation",
        "speak",
        "speech-rate",
        "stress",
        "text-align",
        "text-indent",
        "text-transform",
        "visibility",
        "voice-family",
        "volume",
        "white-space",
        "widows",
        "word-spacing",
    ];
    let r = contains_str(&names, name);
    proof {
        assert(names@.map_values(|n: &str| n@) =~= inherited_names());
    }
    r
}

/// `kept` of two sequences one after the other.
pub proof fn lemma_kept_append<A>(a: Seq<Option<A>>, b: Seq<Option<A>>)
    ensures
        kept(a + b) == kept(a) + kept(b),
    decreases a.len(),
{
    if a.len() == 0 {
        assert(a + b =~= b);
        assert(kept(a) + kept(b) =~= kept(b));
    } else {
        assert((a + b).drop_first() =~= a.drop_first() + b);
        lemma_kept_append(a.drop_first(), b);
        match a[0] {
            Some(x) => {
                assert(seq![x] + (kept(a.drop_first()) + kept(b)) =~= (seq![x] + kept(a.drop_first())) + kept(b));
            },
            None => {},
        }
    }
}

/// `kept` of a one-item sequence.
pub proof fn lemma_kept_one<A>(x: Option<A>)
    ensures
        kept(seq![x]) == (match x {
            Some(y) => seq![y],
            None => Seq::<A>::empty(),
        }),
{
    assert(seq![x].drop_first() =~= Seq::<Option<A>>::empty());
    assert(kept(Seq::<Option<A>>::empty()) =~= Seq::<A>::empty());
    if let Some(y) = x {
        assert(seq![y] + Seq::<A>::empty() =~= seq![y]);
    }
}

/// The children of a styled element, as models.
pub open spec fn content_models(cs: Seq<StyledContent>) -> Seq<ContentModel> {
    Seq::new(cs.len(), |i: int| cs[i]@)
}

impl StyledElement {
    /// The styled form of a document element: no styles yet, and the
    /// excluded elements dropped with their subtrees.
    pub fn from_dom(element: DOMElement) -> (r: StyledElement)
        ensures
            r@ == styled_model(element),
        decreases element,
    {
        let ghost orig = element;
        let ghost n = element.contents@.len();
        let ghost items = styled_items(orig);
        let DOMElement { name, attributes, contents } = element;
        let mut rest = contents;
        let mut out: Vec<StyledContent> = Vec::new();
        assert(orig.contents@.subrange(0, n as int) =~= orig.contents@);
        assert(items.subrange(0, 0) =~= Seq::<Option<ContentModel>>::empty());
        while rest.len() > 0
            invariant
                orig == element,
                rest@.len() <= n,
                n == orig.contents@.len(),
                rest@ == orig.contents@.subrange(n - rest@.len(), n as int),
                content_models(out@) == kept(items.subrange(0, n - rest@.len())),
                items == styled_items(orig),
            decreases rest@.len(),
        {
            let ghost k = n - rest@.len();
            let c = rest.remove(0);
            assert(c == orig.contents@[k]);
            let ghost before = content_models(out@);
            match c {
                DOMContent::Text(t) => {
                    out.push(StyledContent::Text(StyledString { contents: t, styles: StyleMap::new() }));
                },
                DOMContent::Element(e) => {
                    if !element_is_excluded(&e) {
                        proof {
                            vstd::std_specs::vec::axiom_vec_index_decreases(orig.contents, k);
                            assert(decreases_to!(orig => orig.contents));
                            assert(decreases_to!(orig.contents[k] => e));
                        }
                        let styled = StyledElement::from_dom(e);
                        out.push(StyledContent::Element(styled));
                    }
                },
            }
            proof {
                assert(items.subrange(0, k + 1) =~= items.subrange(0, k) + seq![items[k]]);
                lemma_kept_append(items.subrange(0, k), seq![items[k]]);
                lemma_kept_one(items[k]);
                assert(content_models(out@) =~= kept(items.subrange(0, k + 1)));
                assert(rest@ =~= orig.contents@.subrange(k + 1, n as int));
            }
        }
        let r = StyledElement { name, attributes, contents: out, styles: StyleMap::new() };
        proof {
            assert(items.subrange(0, n as int) =~= items);
            assert(r@.contents =~= content_models(out@));
            assert(r@.styles =~= styled_model(orig).styles);
            assert(content_models(out@) == kept(items));
            assert(r@.contents == content_models(out@));
        }
        r
    }
}

/// Whether a simple selector selects an element. Attribute selectors and
/// pseudo-classes select nothing.
pub open spec fn simple_matches(e: ElementModel, sel: SimpleSelector) -> bool {
    match sel {
        SimpleSelector::Type(n) => e.name == n@,
        SimpleSelector::Universal => true,
        SimpleSelector::Class(c) => match e.attributes.get_spec("class"@) {
            Some(v) => has_word(v, c@),
            None => false,
        },
        SimpleSelector::ID(i) => e.attributes.get_spec("id"@) == Some(i@),
        SimpleSelector::Attribute(_) => false,
        SimpleSelector::PseudoClass(_) => false,
    }
}

/// Whether a selector selects an element: a compound selector where any of
/// its parts does, a combinator never.
pub open spec fn selector_matches(e: ElementModel, sel: Selector) -> bool {
    match sel {
        Selector::Simple(s) => simple_matches(e, s),
        Selector::Compound(v) => exists|i: int| 0 <= i < v@.len() && simple_matches(e, #[trigger] v@[i]),
        Selector::Combinator(_, _, _) => false,
    }
}

/// The highest specificity among the selectors of `sels` that select `e`;
/// of equal ones, the last.
pub open spec fn best_match(e: ElementModel, sels: Seq<Selector>) -> Option<Specificity>
    decreases sels.len(),
{
    if sels.len() == 0 {
        None
    } else {
        let b = best_match(e, sels.drop_last());
        let s = selector_specificity(sels.last());
        if selector_matches(e, sels.last()) && (b is None || s.value() >= b->Some_0.value()) {
            Some(s)
        } else {
            b
        }
    }
}

/// Whether a declaration list holds `display: none`.
pub open spec fn hides(ds: Seq<Declaration>) -> bool {
    exists|i: int|
        0 <= i < ds.len() && (#[trigger] ds[i]).name@ == "display"@ && ds[i].value.is_keyword_spec(
            "none"@,
        )
}

/// `m` after each declaration of `ds` in turn was offered at `spec`; where
/// `inherited_only`, the declarations of properties that are not inherited
/// are passed over.
pub open spec fn apply_decls(m: StyleModel, ds: Seq<Declaration>, spec: Specificity, inherited_only: bool) -> StyleModel
    decreases ds.len(),
{
    if ds.len() == 0 {
        m
    } else {
        let m1 = apply_decls(m, ds.drop_last(), spec, inherited_only);
        let d = ds.last();
        if !inherited_only || listed(inherited_names(), d.name@) {
            insert_spec(m1, d.name@, d.value@, spec)
        } else {
            m1
        }
    }
}

/// `m` after the inherited declarations of `ds` were offered at each
/// specificity of `ss` in turn.
pub open spec fn apply_inherited(m: StyleModel, ds: Seq<Declaration>, ss: Seq<Specificity>) -> StyleModel
    decreases ss.len(),
{
    if ss.len() == 0 {
        m
    } else {
        apply_decls(apply_inherited(m, ds, ss.drop_last()), ds, ss.last(), true)
    }
}

/// An element after `ds` were applied to it at `spec` (only the inherited
/// ones where `inherited_only`), and their inherited ones to every element
/// below it.
pub open spec fn spread(e: ElementModel, ds: Seq<Declaration>, spec: Specificity, inherited_only: bool) -> ElementModel
    decreases e, 1nat,
{
    ElementModel {
        styles: apply_decls(e.styles, ds, spec, inherited_only),
        contents: spread_items(e, ds, spec),
        ..e
    }
}

/// The children of `e` after the inherited declarations of `ds` were spread
/// into them.
pub open spec fn spread_items(e: ElementModel, ds: Seq<Declaration>, spec: Specificity) -> Seq<ContentModel>
    decreases e, 0nat,
{
    Seq::new(
        e.contents.len(),
        |i: int|
            if 0 <= i < e.contents.len() {
                match e.contents[i] {
                    ContentModel::Element(c) => ContentModel::Element(spread(c, ds, spec, true)),
                    ContentModel::Text(t, m) => ContentModel::Text(t, m),
                }
            } else {
                ContentModel::Text(Seq::empty(), Map::empty())
            },
    )
}

/// An element after one ruleset, where the matched ancestors had the
/// specificities `ss`, top down; `None` where the ruleset hides it.
pub open spec fn cascade_in(e: ElementModel, rule: Ruleset, ss: Seq<Specificity>) -> Option<ElementModel>
    decreases e, 1nat,
{
    let ds = rule.declarations@;
    let m0 = apply_inherited(e.styles, ds, ss);
    match best_match(e, rule.selectors@) {
        Some(s) => if hides(ds) {
            None
        } else {
            Some(
                ElementModel {
                    styles: apply_decls(m0, ds, s, false),
                    contents: kept(cascade_items(e, rule, ss.push(s))),
                    ..e
                },
            )
        },
        None => Some(ElementModel { styles: m0, contents: kept(cascade_items(e, rule, ss)), ..e }),
    }
}

/// The children of `e` after one ruleset; `None` for one that it hides.
pub open spec fn cascade_items(e: ElementModel, rule: Ruleset, ss: Seq<Specificity>) -> Seq<Option<ContentModel>>
    decreases e, 0nat,
{
    Seq::new(
        e.contents.len(),
        |i: int|
            if 0 <= i < e.contents.len() {
                match e.contents[i] {
                    ContentModel::Element(c) => match cascade_in(c, rule, ss) {
                        Some(x) => Some(ContentModel::Element(x)),
                        None => None,
                    },
                    ContentModel::Text(t, m) => Some(ContentModel::Text(t, m)),
                }
            } else {
                None
            },
    )
}

/// The root after one ruleset: a root that the ruleset would hide stays as
/// it was.
pub open spec fn cascade_root(e: ElementModel, rule: Ruleset) -> ElementModel {
    match cascade_in(e, rule, seq![]) {
        Some(x) => x,
        None => e,
    }
}

/// The root after each ruleset of `rules` in turn.
pub open spec fn cascade_all(e: ElementModel, rules: Seq<Ruleset>) -> ElementModel
    decreases rules.len(),
{
    if rules.len() == 0 {
        e
    } else {
        cascade_root(cascade_all(e, rules.drop_last()), rules.last())
    }
}

impl StyledElement {
    /// Check if the `class` attribute is present and holds `class` as one of
    /// its white-space separated words.
    pub fn has_class(&self, class: &str) -> (r: bool)
        ensures
            r == match self.attributes.get_spec("class"@) {
                Some(v) => has_word(v, class@),
                None => false,
            },
    {
        match self.attributes.get("class") {
            Some(c) => contains_word(c.as_str(), class),
            None => false,
        }
    }

    /// Check if the `id` attribute exists and is exactly `id`.
    pub fn id_is(&self, id: &str) -> (r: bool)
        ensures
            r == (self.attributes.get_spec("id"@) == Some(id@)),
    {
        match self.attributes.get("id") {
            Some(c) => str_eq(c.as_str(), id),
            None => false,
        }
    }

    /// Check if the simple selector selects this element.
    pub fn does_simple_selector_apply(&self, selector: &SimpleSelector) -> (r: bool)
        ensures
            r == simple_matches(self@, *selector),
    {
        match selector {
            SimpleSelector::Type(name) => str_eq(self.name.as_str(), name.as_str()),
            SimpleSelector::Universal => true,
            SimpleSelector::Attribute(_) => false,
            SimpleSelector::Class(name) => self.has_class(name.as_str()),
            SimpleSelector::PseudoClass(_) => false,
            SimpleSelector::ID(id) => self.id_is(id.as_str()),
        }
    }

    /// Check if the selector selects this element: a compound selector
    /// selects where any one of its parts does; combinators select nothing.
    pub fn does_rule_apply(&self, selector: &Selector) -> (r: bool)
        ensures
            r == selector_matches(self@, *selector),
    {
        match selector {
            Selector::Simple(s) => self.does_simple_selector_apply(s),
            Selector::Compound(sels) => {
                let mut i: usize = 0;
                while i < sels.len()
                    invariant
                        *selector == Selector::Compound(*sels),
                        0 <= i <= sels@.len(),
                        forall|j: int| 0 <= j < i ==> !simple_matches(self@, #[trigger] sels@[j]),
                    decreases sels@.len() - i,
                {
                    if self.does_simple_selector_apply(&sels[i]) {
                        let ghost e = self@;
                        assert(simple_matches(e, sels@[i as int]));
                        assert(selector->Compound_0@ == sels@);
                        assert(match *selector {
                            Selector::Compound(v) => exists|k: int| 0 <= k < v@.len() && simple_matches(e, #[trigger] v@[k]),
                            _ => false,
                        });
                        return true;
                    }
                    i += 1;
                }
                false
            },
            Selector::Combinator(_, _, _) => false,
        }
    }

    /// The highest specificity among the selectors that select this element.
    fn best_specificity(&self, selectors: &Vec<Selector>) -> (r: Option<Specificity>)
        ensures
            r == best_match(self@, selectors@),
    {
        let mut best: Option<Specificity> = None;
        let mut i: usize = 0;
        while i < selectors.len()
            invariant
                0 <= i <= selectors@.len(),
                best == best_match(self@, selectors@.subrange(0, i as int)),
            decreases selectors@.len() - i,
        {
            assert(selectors@.subrange(0, i + 1).drop_last() =~= selectors@.subrange(0, i as int));
            if self.does_rule_apply(&selectors[i]) {
                let s = Specificity::from_selector(&selectors[i]);
                match best {
                    Some(b) => {
                        if s.weight() >= b.weight() {
                            best = Some(s);
                        }
                    },
                    None => {
                        best = Some(s);
                    },
                }
            }
            i += 1;
        }
        assert(selectors@.subrange(0, selectors@.len() as int) =~= selectors@);
        best
    }
}

/// Whether the declarations hold `display: none`.
fn has_display_none(declarations: &Vec<Declaration>) -> (r: bool)
    ensures
        r == hides(declarations@),
{
    let mut i: usize = 0;
    while i < declarations.len()
        invariant
            0 <= i <= declarations@.len(),
            forall|j: int|
                0 <= j < i ==> !((#[trigger] declarations@[j]).name@ == "display"@
                    && declarations@[j].value.is_keyword_spec("none"@)),
        decreases declarations@.len() - i,
    {
        if str_eq(declarations[i].name.as_str(), "display") && declarations[i].value.is_keyword("none") {
            return true;
        }
        i += 1;
    }
    false
}

impl StyledElement {
    /// Offer a declaration for this element: it is stored unless a value of
    /// higher specificity is already stored for the property.
    pub fn insert(&mut self, key: &str, value: Value, spec: Specificity)
        ensures
            final(self).styles@ == insert_spec(old(self).styles@, key@, value@, spec),
            final(self).name == old(self).name,
            final(self).attributes == old(self).attributes,
            final(self).contents == old(self).contents,
    {
        self.styles.insert(key, value, spec);
    }

    /// Apply a list of declarations at `spec` to this element (only the
    /// inherited ones where `inherited_only`) and their inherited ones to
    /// every element below it.
    pub fn apply_rule_unconditionally(&mut self, declarations: &Vec<Declaration>, spec: Specificity, inherited_only: bool)
        ensures
            final(self)@ == spread(old(self)@, declarations@, spec, inherited_only),
        decreases *old(self),
    {
        let ghost e0 = self@;
        let mut i: usize = 0;
        while i < declarations.len()
            invariant
                0 <= i <= declarations@.len(),
                self.styles@ == apply_decls(e0.styles, declarations@.subrange(0, i as int), spec, inherited_only),
                self.contents == old(self).contents,
                self.name == old(self).name,
                self.attributes == old(self).attributes,
                e0 == old(self)@,
            decreases declarations@.len() - i,
        {
            assert(declarations@.subrange(0, i + 1).drop_last() =~= declarations@.subrange(0, i as int));
            let d = &declarations[i];
            if !inherited_only || is_inherited(d.name.as_str()) {
                self.insert(d.name.as_str(), d.value.deep_copy(), spec);
            }
            i += 1;
        }
        assert(declarations@.subrange(0, declarations@.len() as int) =~= declarations@);
        let ghost e1 = self@;
        let n = self.contents.len();
        let mut j: usize = 0;
        while j < n
            invariant
                0 <= j <= n,
                n == old(self).contents@.len(),
                self.contents@.len() == n,
                e0 == old(self)@,
                self.name == old(self).name,
                self.attributes == old(self).attributes,
                self.styles@ == e1.styles,
                e1.styles == apply_decls(e0.styles, declarations@, spec, inherited_only),
                forall|k: int| 0 <= k < j ==> (#[trigger] self.contents@[k])@ == spread_items(e0, declarations@, spec)[k],
                forall|k: int| j <= k < n ==> #[trigger] self.contents@[k] == old(self).contents@[k],
            decreases n - j,
        {
            proof {
                vstd::std_specs::vec::axiom_vec_index_decreases(old(self).contents, j as int);
            }
            match &mut self.contents[j] {
                StyledContent::Element(elt) => {
                    elt.apply_rule_unconditionally(declarations, spec, true);
                },
                StyledContent::Text(_) => {},
            }
            j += 1;
        }
        assert(self@.contents =~= spread_items(e0, declarations@, spec));
    }
}

/// The shape of a styled tree: which children are elements, and their shapes.
pub struct Shape {
    pub children: Seq<ChildShape>,
}

/// The shape of one child: an element's, or text.
pub enum ChildShape {
    Element(Shape),
    Text,
}

/// The shape of an element.
pub open spec fn shape(e: ElementModel) -> Shape
    decreases e, 1nat,
{
    Shape { children: shape_items(e) }
}

/// The shapes of the children of an element; `None` for text.
pub open spec fn shape_items(e: ElementModel) -> Seq<ChildShape>
    decreases e, 0nat,
{
    Seq::new(
        e.contents.len(),
        |i: int|
            if 0 <= i < e.contents.len() {
                match e.contents[i] {
                    ContentModel::Element(c) => ChildShape::Element(shape(c)),
                    ContentModel::Text(_, _) => ChildShape::Text,
                }
            } else {
                ChildShape::Text
            },
    )
}

/// Spreading declarations keeps the shape of a tree.
pub proof fn lemma_spread_shape(e: ElementModel, ds: Seq<Declaration>, spec: Specificity, inherited_only: bool)
    ensures
        shape(spread(e, ds, spec, inherited_only)) == shape(e),
    decreases e,
{
    let f = spread(e, ds, spec, inherited_only);
    assert forall|i: int| 0 <= i < e.contents.len() implies shape_items(f)[i] == shape_items(e)[i] by {
        vstd::seq::axiom_seq_index_decreases(e.contents, i);
        if let ContentModel::Element(c) = e.contents[i] {
            lemma_spread_shape(c, ds, spec, true);
        }
    }
    assert(shape_items(f) =~= shape_items(e));
}

/// Offering the inherited declarations at `spec` first is offering them at
/// the specificities `[spec] + ss`.
pub proof fn lemma_apply_inherited_front(m: StyleModel, ds: Seq<Declaration>, spec: Specificity, ss: Seq<Specificity>)
    ensures
        apply_inherited(apply_decls(m, ds, spec, true), ds, ss) == apply_inherited(m, ds, seq![spec] + ss),
    decreases ss.len(),
{
    if ss.len() == 0 {
        assert(seq![spec] + ss =~= seq![spec]);
        assert(seq![spec].drop_last() =~= Seq::<Specificity>::empty());
        assert(apply_inherited(m, ds, Seq::<Specificity>::empty()) == m);
        assert(seq![spec].last() == spec);
    } else {
        lemma_apply_inherited_front(m, ds, spec, ss.drop_last());
        assert((seq![spec] + ss).drop_last() =~= seq![spec] + ss.drop_last());
        assert((seq![spec] + ss).last() == ss.last());
    }
}

/// Whether a selector matches depends on the name and the attributes alone.
pub proof fn lemma_best_match_same(a: ElementModel, b: ElementModel, sels: Seq<Selector>)
    requires
        a.name == b.name,
        a.attributes == b.attributes,
    ensures
        best_match(a, sels) == best_match(b, sels),
    decreases sels.len(),
{
    if sels.len() > 0 {
        lemma_best_match_same(a, b, sels.drop_last());
        let s = sels.last();
        match s {
            Selector::Compound(v) => {
                assert(forall|i: int| 0 <= i < v@.len() ==> simple_matches(a, #[trigger] v@[i]) == simple_matches(b, v@[i]));
            },
            _ => {},
        }
        assert(selector_matches(a, s) == selector_matches(b, s));
    }
}

/// One ruleset on a tree into which declarations of that ruleset were
/// spread at `spec` is the ruleset on the tree with `spec` as an outer match.
pub proof fn lemma_cascade_spread(c: ElementModel, rule: Ruleset, spec: Specificity, ss: Seq<Specificity>)
    ensures
        cascade_in(spread(c, rule.declarations@, spec, true), rule, ss) == cascade_in(c, rule, seq![spec] + ss),
    decreases c,
{
    let ds = rule.declarations@;
    let f = spread(c, ds, spec, true);
    lemma_apply_inherited_front(c.styles, ds, spec, ss);
    lemma_best_match_same(f, c, rule.selectors@);
    let b = best_match(c, rule.selectors@);
    let ss1 = match b {
        Some(s) => ss.push(s),
        None => ss,
    };
    assert(seq![spec] + ss1 =~= match b {
        Some(s) => (seq![spec] + ss).push(s),
        None => seq![spec] + ss,
    });
    assert forall|i: int| 0 <= i < c.contents.len() implies cascade_items(f, rule, ss1)[i]
        == cascade_items(c, rule, seq![spec] + ss1)[i] by {
        vstd::seq::axiom_seq_index_decreases(c.contents, i);
        if let ContentModel::Element(x) = c.contents[i] {
            lemma_cascade_spread(x, rule, spec, ss1);
        }
    }
    assert(cascade_items(f, rule, ss1) =~= cascade_items(c, rule, seq![spec] + ss1));
}

impl StyledElement {
    /// Apply one ruleset to this element and every element below it. The
    /// result is `true` where the ruleset hides this element, which is then
    /// left as it was for the parent to delete.
    pub fn apply_rule(&mut self, rule: &Ruleset) -> (r: bool)
        ensures
            r == cascade_in(old(self)@, *rule, seq![]) is None,
            r ==> final(self)@ == old(self)@,
            !r ==> final(self)@ == cascade_in(old(self)@, *rule, seq![])->Some_0,
        decreases shape(old(self)@),
    {
        let ghost e0 = self@;
        let ghost ds = rule.declarations@;
        let best = self.best_specificity(&rule.selectors);
        let ghost ss: Seq<Specificity> = match best {
            Some(s) => Seq::<Specificity>::empty().push(s),
            None => Seq::<Specificity>::empty(),
        };
        match best {
            Some(s) => {
                if has_display_none(&rule.declarations) {
                    return true;
                }
                self.apply_rule_unconditionally(&rule.declarations, s, false);
                proof {
                    lemma_spread_shape(e0, ds, s, false);
                }
            },
            None => {},
        }
        let ghost e1 = self@;
        let ghost items = cascade_items(e0, *rule, ss);
        proof {
            assert(apply_inherited(e0.styles, ds, Seq::<Specificity>::empty()) == e0.styles);
        }
        let n = self.contents.len();
        let mut keep: Vec<bool> = Vec::new();
        let mut i: usize = 0;
        while i < n
            invariant
                0 <= i <= n,
                n == e0.contents.len(),
                self.contents@.len() == n,
                keep@.len() == i,
                e0 == old(self)@,
                ds == rule.declarations@,
                items == cascade_items(e0, *rule, ss),
                shape(e1) == shape(e0),
                self.name@ == e0.name,
                self.attributes == e0.attributes,
                self.styles@ == e1.styles,
                best == best_match(e0, rule.selectors@),
                ss == (match best {
                    Some(s) => Seq::<Specificity>::empty().push(s),
                    None => Seq::<Specificity>::empty(),
                }),
                e1.contents == (match best {
                    Some(s) => spread_items(e0, ds, s),
                    None => e0.contents,
                }),
                forall|k: int|
                    0 <= k < i ==> #[trigger] keep@[k] == (items[k] is Some) && (keep@[k]
                        ==> self.contents@[k]@ == items[k]->Some_0),
                forall|k: int| i <= k < n ==> (#[trigger] self.contents@[k])@ == e1.contents[k],
            decreases n - i,
        {
            match &mut self.contents[i] {
                StyledContent::Element(elt) => {
                    proof {
                        let c = e0.contents[i as int]->Element_0;
                        let sh = shape(e0);
                        assert(sh.children[i as int] == ChildShape::Element(shape(c)));
                        vstd::seq::axiom_seq_index_decreases(sh.children, i as int);
                        assert(decreases_to!(sh => sh.children));
                        assert(decreases_to!(sh.children[i as int] => sh.children[i as int]->Element_0));
                        match best {
                            Some(s) => {
                                lemma_spread_shape(c, ds, s, true);
                                lemma_cascade_spread(c, *rule, s, Seq::<Specificity>::empty());
                                assert(seq![s] + Seq::<Specificity>::empty() =~= ss);
                            },
                            None => {},
                        }
                    }
                    let removed = elt.apply_rule(rule);
                    keep.push(!removed);
                },
                StyledContent::Text(_) => {
                    keep.push(true);
                },
            }
            i += 1;
        }
        let ghost after = self.contents@;
        let mut j: usize = n;
        assert(items.subrange(n as int, n as int) =~= Seq::<Option<ContentModel>>::empty());
        while j > 0
            invariant
                0 <= j <= n,
                keep@.len() == n,
                items.len() == n,
                after.len() == n,
                forall|k: int|
                    0 <= k < n ==> #[trigger] keep@[k] == (items[k] is Some) && (keep@[k]
                        ==> after[k]@ == items[k]->Some_0),
                self.contents@.len() == j + kept(items.subrange(j as int, n as int)).len(),
                forall|k: int| 0 <= k < j ==> #[trigger] self.contents@[k] == after[k],
                forall|k: int|
                    0 <= k < kept(items.subrange(j as int, n as int)).len() ==> (
                    #[trigger] self.contents@[j + k])@ == kept(items.subrange(j as int, n as int))[k],
                self.name@ == e0.name,
                self.attributes == e0.attributes,
                self.styles@ == e1.styles,
            decreases j,
        {
            j -= 1;
            let ghost rest = kept(items.subrange(j + 1, n as int));
            let ghost prev = self.contents@;
            assert(items.subrange(j as int, n as int).drop_first() =~= items.subrange(j + 1, n as int));
            assert(items.subrange(j as int, n as int)[0] == items[j as int]);
            if !keep[j] {
                self.contents.remove(j);
                assert forall|k: int| 0 <= k < rest.len() implies (#[trigger] self.contents@[j + k])@ == rest[k] by {
                    assert(self.contents@[j + k] == prev[j + 1 + k]);
                }
            } else {
                assert forall|k: int| 0 <= k < rest.len() + 1 implies (#[trigger] self.contents@[j + k])@ == (seq![items[j as int]->Some_0] + rest)[k] by {
                    if k > 0 {
                        assert(self.contents@[j + 1 + (k - 1)] == self.contents@[j + k]);
                    }
                }
            }
        }
        proof {
            assert(items.subrange(0, n as int) =~= items);
            assert forall|k: int| 0 <= k < kept(items).len() implies self@.contents[k] == kept(items)[k] by {
                assert(self.contents@[0 + k] == self.contents@[k]);
            }
            assert(self@.contents =~= kept(items));
        }
        false
    }

    /// Apply each ruleset in turn to this element and the elements below it.
    /// The rulesets must come in cascade order: of equal specificities, the
    /// later wins.
    pub fn apply_styles(&mut self, styles: &[Ruleset])
        ensures
            final(self)@ == cascade_all(old(self)@, styles@),
    {
        let mut i: usize = 0;
        while i < styles.len()
            invariant
                0 <= i <= styles@.len(),
                self@ == cascade_all(old(self)@, styles@.subrange(0, i as int)),
            decreases styles@.len() - i,
        {
            assert(styles@.subrange(0, i + 1).drop_last() =~= styles@.subrange(0, i as int));
            self.apply_rule(&styles[i]);
            i += 1;
        }
        assert(styles@.subrange(0, styles@.len() as int) =~= styles@);
    }
}

/// Applying a single declaration is one insertion.
proof fn lemma_apply_one(m: StyleModel, ds: Seq<Declaration>, spec: Specificity)
    requires
        ds.len() == 1,
    ensures
        apply_decls(m, ds, spec, false) == insert_spec(m, ds[0].name@, ds[0].value@, spec),
{
    assert(ds.drop_last() =~= Seq::<Declaration>::empty());
    assert(apply_decls(m, Seq::<Declaration>::empty(), spec, false) == m);
}

/// Of two rulesets that both select an element and each declare one and the
/// same property, the one with the more specific selector sets it, whichever
/// of the two is applied first.
pub proof fn lemma_higher_specificity_wins(e: ElementModel, r1: Ruleset, r2: Ruleset, key: Seq<char>)
    requires
        !e.styles.contains_key(key),
        r1.declarations@.len() == 1,
        r2.declarations@.len() == 1,
        r1.declarations@[0].name@ == key,
        r2.declarations@[0].name@ == key,
        !hides(r1.declarations@),
        !hides(r2.declarations@),
        best_match(e, r1.selectors@) is Some,
        best_match(e, r2.selectors@) is Some,
        best_match(e, r1.selectors@)->Some_0.value() > best_match(e, r2.selectors@)->Some_0.value(),
    ensures
        cascade_all(e, seq![r1, r2]).styles[key].0 == r1.declarations@[0].value@,
        cascade_all(e, seq![r2, r1]).styles[key].0 == r1.declarations@[0].value@,
{
    let s1 = best_match(e, r1.selectors@)->Some_0;
    let s2 = best_match(e, r2.selectors@)->Some_0;
    let d1 = r1.declarations@;
    let d2 = r2.declarations@;
    let empty = Seq::<Specificity>::empty();
    assert(d1.drop_last() =~= Seq::<Declaration>::empty());
    assert(d2.drop_last() =~= Seq::<Declaration>::empty());
    assert(seq![r1, r2].drop_last() =~= seq![r1]);
    assert(seq![r2, r1].drop_last() =~= seq![r2]);
    assert(seq![r1].drop_last() =~= Seq::<Ruleset>::empty());
    assert(seq![r2].drop_last() =~= Seq::<Ruleset>::empty());
    assert(apply_inherited(e.styles, d1, empty) == e.styles);
    assert(apply_inherited(e.styles, d2, empty) == e.styles);
    let a1 = cascade_root(e, r1);
    let a2 = cascade_root(e, r2);
    assert(cascade_all(e, Seq::<Ruleset>::empty()) == e);
    assert(seq![r1].last() == r1);
    assert(seq![r2].last() == r2);
    assert(seq![r1, r2].last() == r2);
    assert(seq![r2, r1].last() == r1);
    assert(cascade_all(e, seq![r1]) == a1);
    assert(cascade_all(e, seq![r2]) == a2);
    lemma_best_match_same(a1, e, r2.selectors@);
    lemma_best_match_same(a2, e, r1.selectors@);
    assert(d1.last() == d1[0]);
    assert(d2.last() == d2[0]);
    lemma_apply_one(e.styles, d1, s1);
    lemma_apply_one(e.styles, d2, s2);
    assert(cascade_in(e, r1, empty) is Some);
    assert(a1.styles == insert_spec(e.styles, key, d1[0].value@, s1));
    assert(a2.styles == insert_spec(e.styles, key, d2[0].value@, s2));
    assert(apply_inherited(a1.styles, d2, empty) == a1.styles);
    assert(apply_inherited(a2.styles, d1, empty) == a2.styles);
    lemma_apply_one(a1.styles, d2, s2);
    lemma_apply_one(a2.styles, d1, s1);
    assert(cascade_root(a1, r2).styles == insert_spec(a1.styles, key, d2[0].value@, s2));
    assert(cascade_root(a2, r1).styles == insert_spec(a2.styles, key, d1[0].value@, s1));
}

/// Offering only the inherited declarations leaves every property that is
/// not inherited as it was.
proof fn lemma_inherited_only_keeps(m: StyleModel, ds: Seq<Declaration>, spec: Specificity, key: Seq<char>)
    requires
        !listed(inherited_names(), key),
    ensures
        apply_decls(m, ds, spec, true).contains_key(key) == m.contains_key(key),
        m.contains_key(key) ==> apply_decls(m, ds, spec, true)[key] == m[key],
    decreases ds.len(),
{
    if ds.len() > 0 {
        lemma_inherited_only_keeps(m, ds.drop_last(), spec, key);
    }
}

/// An element that a ruleset does not select, below one that it selects,
/// is offered only the inherited declarations of that ruleset: a property
/// that is not inherited stays as it was.
pub proof fn lemma_children_inherit_only(c: ElementModel, rule: Ruleset, spec: Specificity, key: Seq<char>)
    requires
        best_match(c, rule.selectors@) is None,
        !listed(inherited_names(), key),
    ensures
        cascade_in(c, rule, seq![spec]) is Some,
        cascade_in(c, rule, seq![spec])->Some_0.styles.contains_key(key) == c.styles.contains_key(key),
        c.styles.contains_key(key) ==> cascade_in(c, rule, seq![spec])->Some_0.styles[key] == c.styles[key],
{
    let ds = rule.declarations@;
    assert(seq![spec].drop_last() =~= Seq::<Specificity>::empty());
    assert(seq![spec].last() == spec);
    assert(apply_inherited(c.styles, ds, Seq::<Specificity>::empty()) == c.styles);
    assert(apply_inherited(c.styles, ds, seq![spec]) == apply_decls(c.styles, ds, spec, true));
    lemma_inherited_only_keeps(c.styles, ds, spec, key);
}

/// A candidate for a style map: a property, a value and the specificity it
/// is offered at.
pub type Candidate = (Seq<char>, ValueModel, Specificity);

/// `m` after each candidate of `cs` was offered in turn.
pub open spec fn offer_all(m: StyleModel, cs: Seq<Candidate>) -> StyleModel
    decreases cs.len(),
{
    if cs.len() == 0 {
        m
    } else {
        let c = cs.last();
        insert_spec(offer_all(m, cs.drop_last()), c.0, c.1, c.2)
    }
}

/// The candidates that `apply_decls` offers.
pub open spec fn decl_candidates(ds: Seq<Declaration>, spec: Specificity, inherited_only: bool) -> Seq<Candidate>
    decreases ds.len(),
{
    if ds.len() == 0 {
        seq![]
    } else {
        let p = decl_candidates(ds.drop_last(), spec, inherited_only);
        let d = ds.last();
        if !inherited_only || listed(inherited_names(), d.name@) {
            p.push((d.name@, d.value@, spec))
        } else {
            p
        }
    }
}

/// The candidates that `apply_inherited` offers.
pub open spec fn inherited_candidates(ds: Seq<Declaration>, ss: Seq<Specificity>) -> Seq<Candidate>
    decreases ss.len(),
{
    if ss.len() == 0 {
        seq![]
    } else {
        inherited_candidates(ds, ss.drop_last()) + decl_candidates(ds, ss.last(), true)
    }
}

/// The last candidate of `cs` for `key` offered at a specificity of value `v`.
pub open spec fn last_at(cs: Seq<Candidate>, key: Seq<char>, v: int) -> Option<Candidate>
    decreases cs.len(),
{
    if cs.len() == 0 {
        None
    } else if cs.last().0 == key && cs.last().2.value() == v {
        Some(cs.last())
    } else {
        last_at(cs.drop_last(), key, v)
    }
}

/// What `last_at` finds is for `key` at a specificity of value `v`.
proof fn lemma_last_at(cs: Seq<Candidate>, key: Seq<char>, v: int)
    ensures
        last_at(cs, key, v) matches Some(c) ==> c.0 == key && c.2.value() == v,
    decreases cs.len(),
{
    if cs.len() > 0 {
        lemma_last_at(cs.drop_last(), key, v);
    }
}

/// Offering `a` then `b` is offering `a + b`.
proof fn lemma_offer_append(m: StyleModel, a: Seq<Candidate>, b: Seq<Candidate>)
    ensures
        offer_all(m, a + b) == offer_all(offer_all(m, a), b),
    decreases b.len(),
{
    if b.len() == 0 {
        assert(a + b =~= a);
    } else {
        assert((a + b).drop_last() =~= a + b.drop_last());
        assert((a + b).last() == b.last());
        lemma_offer_append(m, a, b.drop_last());
    }
}

/// `apply_decls` offers `decl_candidates`.
proof fn lemma_apply_decls_offers(m: StyleModel, ds: Seq<Declaration>, spec: Specificity, inherited_only: bool)
    ensures
        apply_decls(m, ds, spec, inherited_only) == offer_all(m, decl_candidates(ds, spec, inherited_only)),
    decreases ds.len(),
{
    if ds.len() > 0 {
        lemma_apply_decls_offers(m, ds.drop_last(), spec, inherited_only);
        let p = decl_candidates(ds.drop_last(), spec, inherited_only);
        let d = ds.last();
        let c = (d.name@, d.value@, spec);
        assert(p.push(c).drop_last() =~= p);
    }
}

/// `apply_inherited` offers `inherited_candidates`.
proof fn lemma_apply_inherited_offers(m: StyleModel, ds: Seq<Declaration>, ss: Seq<Specificity>)
    ensures
        apply_inherited(m, ds, ss) == offer_all(m, inherited_candidates(ds, ss)),
    decreases ss.len(),
{
    if ss.len() > 0 {
        lemma_apply_inherited_offers(m, ds, ss.drop_last());
        lemma_apply_decls_offers(apply_inherited(m, ds, ss.drop_last()), ds, ss.last(), true);
        lemma_offer_append(m, inherited_candidates(ds, ss.drop_last()), decl_candidates(ds, ss.last(), true));
    }
}

/// Candidates for other properties leave `key` as it was.
proof fn lemma_offer_other(m: StyleModel, cs: Seq<Candidate>, key: Seq<char>)
    requires
        forall|i: int| 0 <= i < cs.len() ==> (#[trigger] cs[i]).0 != key,
    ensures
        offer_all(m, cs).contains_key(key) == m.contains_key(key),
        m.contains_key(key) ==> offer_all(m, cs)[key] == m[key],
    decreases cs.len(),
{
    if cs.len() > 0 {
        assert(cs.last() == cs[cs.len() - 1]);
        lemma_offer_other(m, cs.drop_last(), key);
    }
}

/// Starting from an entry that no candidate beats, the entry ends as the
/// last candidate of equal specificity, or stays.
proof fn lemma_offer_absorb(m: StyleModel, cs: Seq<Candidate>, key: Seq<char>)
    requires
        m.contains_key(key),
        forall|i: int| 0 <= i < cs.len() && (#[trigger] cs[i]).0 == key ==> cs[i].2.value() <= m[key].1.value(),
    ensures
        offer_all(m, cs).contains_key(key),
        offer_all(m, cs)[key] == match last_at(cs, key, m[key].1.value()) {
            Some(c) => (c.1, c.2),
            None => m[key],
        },
    decreases cs.len(),
{
    if cs.len() > 0 {
        let p = cs.drop_last();
        let c = cs.last();
        let mv = m[key].1.value();
        assert(c == cs[cs.len() - 1]);
        assert(forall|i: int| 0 <= i < p.len() ==> #[trigger] p[i] == cs[i]);
        lemma_offer_absorb(m, p, key);
        lemma_last_at(p, key, mv);
        let r1 = offer_all(m, p);
        assert(r1[key].1.value() == mv);
        if c.0 == key {
            assert(c.2.value() <= mv);
            if c.2.value() == mv {
                assert(last_at(cs, key, mv) == Some(c));
            } else {
                assert(last_at(cs, key, mv) == last_at(p, key, mv));
            }
        } else {
            assert(last_at(cs, key, mv) == last_at(p, key, mv));
        }
    }
}

/// What offering leaves at `key`: an entry that beats or ties every
/// candidate for it, which is the last candidate of its specificity, else
/// the entry `m` had; no entry only where `m` had none and no candidate is
/// for it.
proof fn lemma_offer_result(m: StyleModel, cs: Seq<Candidate>, key: Seq<char>)
    ensures
        offer_all(m, cs).contains_key(key) ==> forall|i: int|
            0 <= i < cs.len() && (#[trigger] cs[i]).0 == key ==> cs[i].2.value() <= offer_all(m, cs)[key].1.value(),
        offer_all(m, cs).contains_key(key) ==> offer_all(m, cs)[key] == match last_at(cs, key, offer_all(m, cs)[key].1.value()) {
            Some(c) => (c.1, c.2),
            None => m[key],
        },
        offer_all(m, cs).contains_key(key) && last_at(cs, key, offer_all(m, cs)[key].1.value()) is None ==> m.contains_key(key),
        !offer_all(m, cs).contains_key(key) ==> !m.contains_key(key) && forall|i: int|
            0 <= i < cs.len() ==> (#[trigger] cs[i]).0 != key,
    decreases cs.len(),
{
    if cs.len() > 0 {
        let p = cs.drop_last();
        let c = cs.last();
        assert(c == cs[cs.len() - 1]);
        lemma_offer_result(m, p, key);
        assert(forall|i: int| 0 <= i < p.len() ==> #[trigger] p[i] == cs[i]);
        let r1 = offer_all(m, p);
        let r = offer_all(m, cs);
        if c.0 == key {
            if !r1.contains_key(key) || c.2.value() >= r1[key].1.value() {
                assert(r[key] == (c.1, c.2));
                assert(last_at(cs, key, c.2.value()) == Some(c));
            } else {
                assert(r[key] == r1[key]);
                assert(last_at(cs, key, r1[key].1.value()) == last_at(p, key, r1[key].1.value()));
            }
        } else {
            assert(r.contains_key(key) == r1.contains_key(key));
            if r1.contains_key(key) {
                assert(r[key] == r1[key]);
                assert(last_at(cs, key, r1[key].1.value()) == last_at(p, key, r1[key].1.value()));
            }
        }
        if r.contains_key(key) {
            assert forall|i: int| 0 <= i < cs.len() && (#[trigger] cs[i]).0 == key implies cs[i].2.value() <= r[key].1.value() by {
                if i < p.len() {
                    assert(p[i] == cs[i]);
                }
            }
        } else {
            assert forall|i: int| 0 <= i < cs.len() implies (#[trigger] cs[i]).0 != key by {
                if i < p.len() {
                    assert(p[i] == cs[i]);
                }
            }
        }
    }
}

/// Offering the same candidates a second time changes nothing.
pub proof fn lemma_offer_twice(m: StyleModel, cs: Seq<Candidate>)
    ensures
        offer_all(offer_all(m, cs), cs) == offer_all(m, cs),
{
    let r = offer_all(m, cs);
    let r2 = offer_all(r, cs);
    assert forall|k: Seq<char>| #[trigger] r2.contains_key(k) == r.contains_key(k) && (r.contains_key(k) ==> r2[k] == r[k]) by {
        lemma_offer_result(m, cs, k);
        if r.contains_key(k) {
            lemma_offer_absorb(r, cs, k);
        } else {
            lemma_offer_other(r, cs, k);
        }
    }
    assert(r2 =~= r);
}

/// Every value that `kept` keeps came from some present item.
proof fn lemma_kept_from<A>(items: Seq<Option<A>>, j: int)
    requires
        0 <= j < kept(items).len(),
    ensures
        exists|i: int| 0 <= i < items.len() && items[i] == Some(#[trigger] kept(items)[j]),
    decreases items.len(),
{
    let rest = items.drop_first();
    match items[0] {
        Some(x) => {
            if j == 0 {
                assert(items[0] == Some(kept(items)[0]));
            } else {
                lemma_kept_from(rest, j - 1);
                let i = choose|i: int| 0 <= i < rest.len() && rest[i] == Some(#[trigger] kept(rest)[j - 1]);
                assert(items[i + 1] == Some(kept(items)[j]));
            }
        },
        None => {
            lemma_kept_from(rest, j);
            let i = choose|i: int| 0 <= i < rest.len() && rest[i] == Some(#[trigger] kept(rest)[j]);
            assert(items[i + 1] == Some(kept(items)[j]));
        },
    }
}

/// Where every item is present, `kept` keeps them all.
proof fn lemma_kept_all<A>(items: Seq<Option<A>>, xs: Seq<A>)
    requires
        items.len() == xs.len(),
        forall|i: int| 0 <= i < items.len() ==> #[trigger] items[i] == Some(xs[i]),
    ensures
        kept(items) == xs,
    decreases items.len(),
{
    if items.len() == 0 {
        assert(xs =~= Seq::<A>::empty());
    } else {
        assert(forall|i: int| 0 <= i < items.len() - 1 ==> #[trigger] items.drop_first()[i] == items[i + 1]);
        lemma_kept_all(items.drop_first(), xs.drop_first());
        assert(seq![xs[0]] + xs.drop_first() =~= xs);
    }
}

/// The candidates that one ruleset offers an element whose matched
/// ancestors had the specificities `ss`.
pub open spec fn rule_candidates(e: ElementModel, rule: Ruleset, ss: Seq<Specificity>) -> Seq<Candidate> {
    let ds = rule.declarations@;
    match best_match(e, rule.selectors@) {
        Some(s) => inherited_candidates(ds, ss) + decl_candidates(ds, s, false),
        None => inherited_candidates(ds, ss),
    }
}

/// The candidates that `rules` offer an element in turn, ruleset `j` with
/// the outer matches `cx[j]`.
pub open spec fn all_candidates(e: ElementModel, rules: Seq<Ruleset>, cx: Seq<Seq<Specificity>>) -> Seq<Candidate>
    decreases rules.len(),
{
    if rules.len() == 0 {
        seq![]
    } else {
        all_candidates(e, rules.drop_last(), cx.drop_last()) + rule_candidates(e, rules.last(), cx.last())
    }
}

/// Whether one of `rules` hides the element.
pub open spec fn hidden_by(e: ElementModel, rules: Seq<Ruleset>) -> bool {
    exists|j: int|
        0 <= j < rules.len() && best_match(e, (#[trigger] rules[j]).selectors@) is Some && hides(
            rules[j].declarations@,
        )
}

/// The outer matches of the children of `e`.
pub open spec fn inner_context(e: ElementModel, rules: Seq<Ruleset>, cx: Seq<Seq<Specificity>>) -> Seq<Seq<Specificity>> {
    Seq::new(
        rules.len(),
        |j: int|
            match best_match(e, rules[j].selectors@) {
                Some(s) => cx[j].push(s),
                None => cx[j],
            },
    )
}

/// The element after all of `rules`, in one closed form: gone where one
/// hides it, else offered every candidate in ruleset order, with its
/// children likewise.
pub open spec fn cascade_many(e: ElementModel, rules: Seq<Ruleset>, cx: Seq<Seq<Specificity>>) -> Option<ElementModel>
    decreases e, 1nat,
{
    if hidden_by(e, rules) {
        None
    } else {
        Some(
            ElementModel {
                styles: offer_all(e.styles, all_candidates(e, rules, cx)),
                contents: kept(cascade_many_items(e, rules, inner_context(e, rules, cx))),
                ..e
            },
        )
    }
}

/// The children of `e` after all of `rules`; `None` for a hidden one.
pub open spec fn cascade_many_items(e: ElementModel, rules: Seq<Ruleset>, cx: Seq<Seq<Specificity>>) -> Seq<Option<ContentModel>>
    decreases e, 0nat,
{
    Seq::new(
        e.contents.len(),
        |i: int|
            if 0 <= i < e.contents.len() {
                match e.contents[i] {
                    ContentModel::Element(c) => match cascade_many(c, rules, cx) {
                        Some(x) => Some(ContentModel::Element(x)),
                        None => None,
                    },
                    ContentModel::Text(t, m) => Some(ContentModel::Text(t, m)),
                }
            } else {
                None
            },
    )
}

/// The rulesets of `rules` that do not hide the root `e`: the others leave
/// the root as it is.
pub open spec fn effective(e: ElementModel, rules: Seq<Ruleset>) -> Seq<Ruleset>
    decreases rules.len(),
{
    if rules.len() == 0 {
        seq![]
    } else {
        let p = effective(e, rules.drop_last());
        let r = rules.last();
        if best_match(e, r.selectors@) is Some && hides(r.declarations@) {
            p
        } else {
            p.push(r)
        }
    }
}

/// `n` empty outer-match lists.
pub open spec fn no_context(n: nat) -> Seq<Seq<Specificity>> {
    Seq::new(n, |j: int| Seq::<Specificity>::empty())
}

/// Mapping `g` over what `kept` keeps, then keeping, is keeping what `g`
/// gives for each present item.
proof fn lemma_kept_map(
    items: Seq<Option<ContentModel>>,
    a: Seq<Option<ContentModel>>,
    b: Seq<Option<ContentModel>>,
    g: spec_fn(ContentModel) -> Option<ContentModel>,
)
    requires
        a.len() == kept(items).len(),
        forall|j: int| 0 <= j < a.len() ==> #[trigger] a[j] == g(kept(items)[j]),
        b.len() == items.len(),
        forall|i: int|
            0 <= i < b.len() ==> #[trigger] b[i] == match items[i] {
                Some(y) => g(y),
                None => None,
            },
    ensures
        kept(a) == kept(b),
    decreases items.len(),
{
    if items.len() == 0 {
        assert(b =~= Seq::<Option<ContentModel>>::empty());
        assert(a =~= Seq::<Option<ContentModel>>::empty());
    } else {
        let rest = items.drop_first();
        let b1 = b.drop_first();
        assert(forall|i: int| 0 <= i < b1.len() ==> #[trigger] b1[i] == b[i + 1]);
        assert(forall|i: int| 0 <= i < rest.len() ==> #[trigger] rest[i] == items[i + 1]);
        match items[0] {
            Some(y) => {
                let a1 = a.drop_first();
                assert(forall|j: int| 0 <= j < a1.len() ==> #[trigger] a1[j] == a[j + 1]);
                assert(kept(items) == seq![y] + kept(rest));
                assert forall|j: int| 0 <= j < a1.len() implies #[trigger] a1[j] == g(kept(rest)[j]) by {
                    assert(kept(items)[j + 1] == kept(rest)[j]);
                }
                lemma_kept_map(rest, a1, b1, g);
                assert(a[0] == b[0]);
            },
            None => {
                assert(kept(items) == kept(rest));
                lemma_kept_map(rest, a, b1, g);
            },
        }
    }
}

/// Both the closed form and the cascade select by name and attributes only.
proof fn lemma_same_matches(a: ElementModel, b: ElementModel, rules: Seq<Ruleset>, cx: Seq<Seq<Specificity>>)
    requires
        a.name == b.name,
        a.attributes == b.attributes,
    ensures
        all_candidates(a, rules, cx) == all_candidates(b, rules, cx),
        hidden_by(a, rules) == hidden_by(b, rules),
        inner_context(a, rules, cx) == inner_context(b, rules, cx),
        effective(a, rules) == effective(b, rules),
    decreases rules.len(),
{
    assert forall|j: int| 0 <= j < rules.len() implies best_match(a, (#[trigger] rules[j]).selectors@)
        == best_match(b, rules[j].selectors@) by {
        lemma_best_match_same(a, b, rules[j].selectors@);
    }
    assert(inner_context(a, rules, cx) =~= inner_context(b, rules, cx));
    if rules.len() > 0 {
        lemma_same_matches(a, b, rules.drop_last(), cx.drop_last());
        lemma_best_match_same(a, b, rules.last().selectors@);
    }
}

/// One more ruleset on the closed form of some rulesets is the closed form
/// of all of them.
proof fn lemma_cascade_step(e: ElementModel, rules: Seq<Ruleset>, cx: Seq<Seq<Specificity>>, rule: Ruleset, ss: Seq<Specificity>)
    requires
        cascade_many(e, rules, cx) is Some,
        cx.len() == rules.len(),
    ensures
        cascade_in(cascade_many(e, rules, cx)->Some_0, rule, ss) == cascade_many(e, rules.push(rule), cx.push(ss)),
    decreases e,
{
    let x = cascade_many(e, rules, cx)->Some_0;
    let rs = rules.push(rule);
    let cs = cx.push(ss);
    let ds = rule.declarations@;
    lemma_best_match_same(x, e, rule.selectors@);
    let b = best_match(e, rule.selectors@);
    assert(rs.drop_last() =~= rules);
    assert(cs.drop_last() =~= cx);
    assert(rs.last() == rule);
    assert(cs.last() == ss);
    assert forall|j: int| 0 <= j < rules.len() implies #[trigger] rs[j] == rules[j] by {}
    assert(hidden_by(e, rs) == (b is Some && hides(ds))) by {
        if b is Some && hides(ds) {
            assert(rs[rules.len() as int] == rule);
        }
        if hidden_by(e, rs) {
            let j = choose|j: int|
                0 <= j < rs.len() && best_match(e, (#[trigger] rs[j]).selectors@) is Some && hides(rs[j].declarations@);
            if j < rules.len() {
                assert(rs[j] == rules[j]);
            }
        }
    }
    if !(b is Some && hides(ds)) {
        let ss1 = match b {
            Some(s) => ss.push(s),
            None => ss,
        };
        lemma_apply_inherited_offers(x.styles, ds, ss);
        match b {
            Some(s) => {
                lemma_apply_decls_offers(apply_inherited(x.styles, ds, ss), ds, s, false);
                lemma_offer_append(x.styles, inherited_candidates(ds, ss), decl_candidates(ds, s, false));
            },
            None => {},
        }
        lemma_offer_append(e.styles, all_candidates(e, rules, cx), rule_candidates(e, rule, ss));
        let y = cascade_in(x, rule, ss)->Some_0;
        assert(y.styles == offer_all(x.styles, rule_candidates(e, rule, ss)));
        let icx = inner_context(e, rules, cx);
        let icx2 = inner_context(e, rs, cs);
        assert(icx2 =~= icx.push(ss1));
        let items = cascade_many_items(e, rules, icx);
        let g = |c: ContentModel|
            match c {
                ContentModel::Element(z) => match cascade_in(z, rule, ss1) {
                    Some(w) => Some(ContentModel::Element(w)),
                    None => None,
                },
                ContentModel::Text(t, m) => Some(ContentModel::Text(t, m)),
            };
        let a = cascade_items(x, rule, ss1);
        let bb = cascade_many_items(e, rs, icx2);
        assert forall|i: int| 0 <= i < bb.len() implies #[trigger] bb[i] == match items[i] {
            Some(w) => g(w),
            None => None,
        } by {
            vstd::seq::axiom_seq_index_decreases(e.contents, i);
            if let ContentModel::Element(c) = e.contents[i] {
                if cascade_many(c, rules, icx) is Some {
                    lemma_cascade_step(c, rules, icx, rule, ss1);
                } else {
                    let j = choose|j: int|
                        0 <= j < rules.len() && best_match(c, (#[trigger] rules[j]).selectors@) is Some && hides(
                            rules[j].declarations@,
                        );
                    assert(rs[j] == rules[j]);
                }
            }
        }
        lemma_kept_map(items, a, bb, g);
    }
}

/// The closed form, applied to what it gave, gives the same again.
proof fn lemma_cascade_many_twice(e: ElementModel, rules: Seq<Ruleset>, cx: Seq<Seq<Specificity>>)
    requires
        cascade_many(e, rules, cx) is Some,
    ensures
        cascade_many(cascade_many(e, rules, cx)->Some_0, rules, cx) == cascade_many(e, rules, cx),
    decreases e,
{
    let a = cascade_many(e, rules, cx)->Some_0;
    lemma_same_matches(a, e, rules, cx);
    lemma_offer_twice(e.styles, all_candidates(e, rules, cx));
    let icx = inner_context(e, rules, cx);
    let items = cascade_many_items(e, rules, icx);
    let again = cascade_many_items(a, rules, icx);
    assert forall|j: int| 0 <= j < a.contents.len() implies #[trigger] again[j] == Some(a.contents[j]) by {
        lemma_kept_from(items, j);
        let i = choose|i: int| 0 <= i < items.len() && items[i] == Some(#[trigger] kept(items)[j]);
        vstd::seq::axiom_seq_index_decreases(e.contents, i);
        if let ContentModel::Element(x) = e.contents[i] {
            lemma_cascade_many_twice(x, rules, icx);
        }
    }
    lemma_kept_all(again, a.contents);
}

/// No effective ruleset hides the root.
proof fn lemma_effective_shows(e: ElementModel, rules: Seq<Ruleset>)
    ensures
        !hidden_by(e, effective(e, rules)),
        effective(e, rules).len() <= rules.len(),
    decreases rules.len(),
{
    if rules.len() > 0 {
        lemma_effective_shows(e, rules.drop_last());
        let p = effective(e, rules.drop_last());
        let r = rules.last();
        if !(best_match(e, r.selectors@) is Some && hides(r.declarations@)) {
            let q = p.push(r);
            if hidden_by(e, q) {
                let j = choose|j: int|
                    0 <= j < q.len() && best_match(e, (#[trigger] q[j]).selectors@) is Some && hides(q[j].declarations@);
                if j < p.len() {
                    assert(q[j] == p[j]);
                }
            }
        }
    }
}

/// No ruleset leaves an element as it was.
proof fn lemma_cascade_none(e: ElementModel)
    ensures
        cascade_many(e, Seq::<Ruleset>::empty(), Seq::<Seq<Specificity>>::empty()) == Some(e),
    decreases e,
{
    let none = Seq::<Ruleset>::empty();
    let nc = Seq::<Seq<Specificity>>::empty();
    assert(all_candidates(e, none, nc) =~= Seq::<Candidate>::empty());
    assert(inner_context(e, none, nc) =~= nc);
    let items = cascade_many_items(e, none, nc);
    assert forall|i: int| 0 <= i < items.len() implies #[trigger] items[i] == Some(e.contents[i]) by {
        vstd::seq::axiom_seq_index_decreases(e.contents, i);
        if let ContentModel::Element(x) = e.contents[i] {
            lemma_cascade_none(x);
        }
    }
    lemma_kept_all(items, e.contents);
}

/// The cascade is the closed form over the rulesets that do not hide the
/// root.
proof fn lemma_cascade_all_closed(e: ElementModel, rules: Seq<Ruleset>)
    ensures
        cascade_many(e, effective(e, rules), no_context(effective(e, rules).len())) is Some,
        cascade_all(e, rules) == cascade_many(e, effective(e, rules), no_context(effective(e, rules).len()))->Some_0,
    decreases rules.len(),
{
    lemma_effective_shows(e, rules);
    let eff = effective(e, rules);
    if rules.len() == 0 {
        assert(no_context(0) =~= Seq::<Seq<Specificity>>::empty());
        lemma_cascade_none(e);
    } else {
        let p = rules.drop_last();
        let r = rules.last();
        lemma_cascade_all_closed(e, p);
        let pe = effective(e, p);
        let x = cascade_many(e, pe, no_context(pe.len()))->Some_0;
        lemma_best_match_same(x, e, r.selectors@);
        if best_match(e, r.selectors@) is Some && hides(r.declarations@) {
            assert(cascade_in(x, r, seq![]) is None);
        } else {
            lemma_cascade_step(e, pe, no_context(pe.len()), r, seq![]);
            assert(no_context(pe.len()).push(seq![]) =~= no_context(pe.len() + 1));
        }
    }
}

/// Running the whole cascade a second time on its own result changes
/// nothing: the same elements stay, in the same order, each with the same
/// styles (what `StyledElement::apply_styles` does is `cascade_all`).
pub proof fn lemma_cascade_idempotent(e: ElementModel, rules: Seq<Ruleset>)
    ensures
        cascade_all(cascade_all(e, rules), rules) == cascade_all(e, rules),
{
    lemma_cascade_all_closed(e, rules);
    let eff = effective(e, rules);
    let x = cascade_all(e, rules);
    lemma_cascade_all_closed(x, rules);
    lemma_same_matches(x, e, rules, no_context(eff.len()));
    lemma_cascade_many_twice(e, eff, no_context(eff.len()));
}

} // verus!
