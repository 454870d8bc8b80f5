//! The document tree handed over by the document parser.
use vstd::prelude::*;
use crate::text::str_eq;

verus! {

/// The attributes of an element, as `(name, value)` pairs, each name at most
/// once (see `wf`).
#[derive(Debug, PartialEq)]
pub struct DOMAttributes(pub Vec<(String, String)>);

/// An element: its lower-case tag name, its attributes and its children.
#[derive(Debug, PartialEq)]
pub struct DOMElement {
    pub name: String,
    pub attributes: DOMAttributes,
    pub contents: Vec<DOMContent>,
}

/// A child of an element.
#[derive(Debug, PartialEq)]
pub enum DOMContent {
    Text(String),
    Element(DOMElement),
}

/// The value of the first pair of `pairs` named `name`.
pub open spec fn lookup(pairs: Seq<(String, String)>, name: Seq<char>) -> Option<Seq<char>>
    decreases pairs.len(),
{
    if pairs.len() == 0 {
        None
    } else if pairs[0].0@ == name {
        Some(pairs[0].1@)
    } else {
        lookup(pairs.drop_first(), name)
    }
}

/// The name of a tag in lower case, as `str::to_lowercase` gives it.
pub uninterp spec fn lower_of(s: Seq<char>) -> Seq<char>;

/// Relies on `str::to_lowercase`: the result depends on the characters alone.
#[verifier::external_body]
fn lowercase(s: &str) -> (r: String)
    ensures
        r@ == lower_of(s@),
{
    s.to_lowercase()
}

/// The elements of `contents` named `name`, in order.
pub open spec fn children_named(contents: Seq<DOMContent>, name: Seq<char>) -> Seq<DOMElement>
    decreases contents.len(),
{
    if contents.len() == 0 {
        seq![]
    } else {
        let rest = children_named(contents.drop_last(), name);
        match contents.last() {
            DOMContent::Element(e) => if e.name@ == name {
                rest.push(e)
            } else {
                rest
            },
            DOMContent::Text(_) => rest,
        }
    }
}

/// The first pair named like the pair at `i` is that one.
proof fn lemma_lookup_first(pairs: Seq<(String, String)>, i: int)
    requires
        0 <= i < pairs.len(),
        forall|j: int| 0 <= j < i ==> (#[trigger] pairs[j]).0@ != pairs[i].0@,
    ensures
        lookup(pairs, pairs[i].0@) == Some(pairs[i].1@),
    decreases i,
{
    if i > 0 {
        assert(pairs.drop_first()[i - 1] == pairs[i]);
        lemma_lookup_first(pairs.drop_first(), i - 1);
    }
}

/// Changing the pair at `i`, the first with its name, to one of the same
/// name leaves every other name as it was.
proof fn lemma_lookup_update(pairs: Seq<(String, String)>, i: int, p: (String, String), key: Seq<char>)
    requires
        0 <= i < pairs.len(),
        p.0@ == pairs[i].0@,
        forall|j: int| 0 <= j < i ==> (#[trigger] pairs[j]).0@ != pairs[i].0@,
        key != pairs[i].0@,
    ensures
        lookup(pairs.update(i, p), key) == lookup(pairs, key),
    decreases i,
{
    let u = pairs.update(i, p);
    if i == 0 {
        assert(u.drop_first() =~= pairs.drop_first());
    } else {
        assert(u[0] == pairs[0]);
        if pairs[0].0@ != key {
            assert(u.drop_first() =~= pairs.drop_first().update(i - 1, p));
            lemma_lookup_update(pairs.drop_first(), i - 1, p, key);
        }
    }
}

/// Appending a pair of another name leaves `key` as it was.
proof fn lemma_lookup_push(pairs: Seq<(String, String)>, p: (String, String), key: Seq<char>)
    requires
        key != p.0@,
    ensures
        lookup(pairs.push(p), key) == lookup(pairs, key),
    decreases pairs.len(),
{
    let q = pairs.push(p);
    if pairs.len() == 0 {
        assert(q.drop_first() =~= Seq::<(String, String)>::empty());
        assert(q[0] == p);
        assert(lookup(q.drop_first(), key) is None);
    } else {
        assert(q[0] == pairs[0]);
        if pairs[0].0@ != key {
            assert(q.drop_first() =~= pairs.drop_first().push(p));
            lemma_lookup_push(pairs.drop_first(), p, key);
        }
    }
}

impl DOMAttributes {
    /// The value of the attribute `name`, if it is set.
    pub open spec fn get_spec(&self, name: Seq<char>) -> Option<Seq<char>> {
        lookup(self.0@, name)
    }

    /// Each name occurs at most once.
    pub open spec fn wf(&self) -> bool {
        forall|i: int, j: int|
            0 <= i < j < self.0@.len() ==> (#[trigger] self.0@[i]).0@ != (#[trigger] self.0@[j]).0@
    }

    /// No attributes.
    pub fn empty() -> (r: DOMAttributes)
        ensures
            r.0@.len() == 0,
            r.wf(),
    {
        DOMAttributes(Vec::new())
    }

    /// Sets the attribute `name` to `value`, replacing its old value.
    pub fn insert(&mut self, name: String, value: String)
        requires
            old(self).wf(),
        ensures
            final(self).wf(),
            final(self).get_spec(name@) == Some(value@),
            forall|k: Seq<char>| k != name@ ==> final(self).get_spec(k) == old(self).get_spec(k),
    {
        let mut i: usize = 0;
        while i < self.0.len()
            invariant
                0 <= i <= self.0@.len(),
                self.0@ == old(self).0@,
                old(self).wf(),
                forall|j: int| 0 <= j < i ==> (#[trigger] self.0@[j]).0@ != name@,
            decreases self.0@.len() - i,
        {
            if str_eq(self.0[i].0.as_str(), name.as_str()) {
                let ghost before = self.0@;
                self.0.set(i, (name, value));
                proof {
                    assert(old(self).wf());
                    assert forall|a: int, b: int| 0 <= a < b < self.0@.len() implies (#[trigger] self.0@[a]).0@
                        != (#[trigger] self.0@[b]).0@ by {
                        assert(before[a].0@ != before[b].0@);
                    }
                    lemma_lookup_first(self.0@, i as int);
                    assert forall|k: Seq<char>| k != self.0@[i as int].0@ implies lookup(self.0@, k) == lookup(before, k) by {
                        lemma_lookup_update(before, i as int, self.0@[i as int], k);
                    }
                }
                return;
            }
            i += 1;
        }
        let ghost before = self.0@;
        let ghost n = self.0@.len();
        self.0.push((name, value));
        proof {
            lemma_lookup_first(self.0@, n as int);
            assert forall|k: Seq<char>| k != self.0@[n as int].0@ implies lookup(self.0@, k) == lookup(before, k) by {
                lemma_lookup_push(before, self.0@[n as int], k);
            }
        }
    }

    /// The value of the attribute `name`, if it is set.
    pub fn get(&self, name: &str) -> (r: Option<&String>)
        ensures
            match r {
                Some(v) => self.get_spec(name@) == Some(v@),
                None => self.get_spec(name@) is None,
            },
    {
        let mut i: usize = 0;
        assert(self.0@.subrange(0, self.0@.len() as int) =~= self.0@);
        while i < self.0.len()
            invariant
                0 <= i <= self.0@.len(),
                lookup(self.0@, name@) == lookup(self.0@.subrange(i as int, self.0@.len() as int), name@),
            decreases self.0@.len() - i,
        {
            let ghost rest = self.0@.subrange(i as int, self.0@.len() as int);
            assert(rest.drop_first() =~= self.0@.subrange(i + 1, self.0@.len() as int));
            if str_eq(self.0[i].0.as_str(), name) {
                return Some(&self.0[i].1);
            }
            i += 1;
        }
        None
    }
}

impl DOMElement {
    /// An element named `name` in lower case, with `attributes` (none where
    /// `None`) and `contents`.
    pub fn new(name: &str, attributes: Option<DOMAttributes>, contents: Vec<DOMContent>) -> (r:
        DOMElement)
        requires
            attributes matches Some(a) ==> a.wf(),
        ensures
            r.attributes.wf(),
            r.name@ == lower_of(name@),
            attributes matches Some(a) ==> r.attributes == a,
            attributes is None ==> r.attributes.0@.len() == 0,
            r.contents == contents,
    {
        let attributes = match attributes {
            Some(a) => a,
            None => DOMAttributes::empty(),
        };
        DOMElement { name: lowercase(name), attributes, contents }
    }

    /// The child elements named `name`, in order. Only direct children are
    /// searched: `recursive` must be `false`.
    pub fn get_elements_by_name(&self, name: &str, recursive: bool) -> (r: Vec<&DOMElement>)
        requires
            !recursive,
        ensures
            r@.len() == children_named(self.contents@, name@).len(),
            forall|i: int| 0 <= i < r@.len() ==> *r@[i] == #[trigger] children_named(self.contents@, name@)[i],
    {
        let mut r: Vec<&DOMElement> = Vec::new();
        let mut i: usize = 0;
        while i < self.contents.len()
            invariant
                0 <= i <= self.contents@.len(),
                r@.len() == children_named(self.contents@.subrange(0, i as int), name@).len(),
                forall|j: int| 0 <= j < r@.len() ==> *r@[j] == #[trigger] children_named(self.contents@.subrange(0, i as int), name@)[j],
            decreases self.contents@.len() - i,
        {
            assert(self.contents@.subrange(0, i + 1).drop_last() =~= self.contents@.subrange(0, i as int));
            if let DOMContent::Element(e) = &self.contents[i] {
                if str_eq(e.name.as_str(), name) {
                    r.push(e);
                }
            }
            i += 1;
        }
        assert(self.contents@.subrange(0, self.contents@.len() as int) =~= self.contents@);
        r
    }

    /// The value of the attribute `name`, if it is set.
    pub fn get_attribute(&self, name: &str) -> (r: Option<&String>)
        ensures
            match r {
                Some(v) => self.attributes.get_spec(name@) == Some(v@),
                None => self.attributes.get_spec(name@) is None,
            },
    {
        self.attributes.get(name)
    }
}

} // verus!
