//! The typed UI tree: a generic-over-message-type DOM [`Object`] with a
//! kind discriminant and an ordered attribute list, implementing the
//! [`Vertex`] diffing capability.

use vstd::prelude::*;

use crate::tree::{
    Difference, Operation, Vertex, bounded_width, cs_view, diff_kids, diff_spec,
    lemma_diff_identity, lemma_diff_kids_equal,
};

verus! {

/// Message values carried by interactive attributes. An application picks
/// one concrete message type (typically a tagged union) and supplies its
/// equality; diffing compares click payloads through it.
pub trait Message: Sized {
    /// What equality of two messages means.
    spec fn eq_spec(&self, other: &Self) -> bool;

    /// Message equality is reflexive.
    proof fn lemma_eq_refl(&self)
        ensures
            self.eq_spec(self),
    ;

    fn msg_eq(&self, other: &Self) -> (r: bool)
        ensures
            r == self.eq_spec(other),
    ;

    /// An owned copy of this message.
    fn dup(&self) -> (r: Self)
        ensures
            r == *self,
    ;
}

impl Message for u64 {
    open spec fn eq_spec(&self, other: &Self) -> bool {
        self == other
    }

    proof fn lemma_eq_refl(&self) {
    }

    fn msg_eq(&self, other: &Self) -> (r: bool) {
        *self == *other
    }

    fn dup(&self) -> (r: Self) {
        *self
    }
}

/// Rendering discriminant of a DOM node; it determines which attributes
/// are meaningful on the far side.
#[derive(Clone, Copy, Debug, PartialEq, Eq, Structural)]
pub enum Kind {
    Stack,
    Button,
    Label,
    Field,
}

/// Tagged value attached to a DOM node. A change callback is an opaque
/// handle chosen by the application and compared by identity.
#[derive(Clone, Debug)]
pub enum Attribute<S> {
    Text(String),
    Click(S),
    Placeholder(String),
    Change(u64),
}

pub type Attributes<S> = Vec<Attribute<S>>;

/// One element of a changeset, re-exported beside the tree it applies to.
pub type Change = crate::tree::Change;

pub type Changeset = crate::tree::Changeset;

/// A DOM node: kind, ordered attributes, ordered children. Immutable once
/// constructed; a view recomputation builds a whole new tree.
#[derive(Debug)]
pub struct Object<S> {
    pub kind: Kind,
    pub attributes: Attributes<S>,
    pub children: Vec<Object<S>>,
}

/// Structural equality of two attributes: equal tags and equal payloads,
/// message payloads compared by the message type's own equality.
pub open spec fn attr_eq<S: Message>(a: Attribute<S>, b: Attribute<S>) -> bool {
    match (a, b) {
        (Attribute::Text(x), Attribute::Text(y)) => x@ == y@,
        (Attribute::Click(x), Attribute::Click(y)) => x.eq_spec(&y),
        (Attribute::Placeholder(x), Attribute::Placeholder(y)) => x@ == y@,
        (Attribute::Change(x), Attribute::Change(y)) => x == y,
        _ => false,
    }
}

/// Pointwise equality of two attribute lists.
pub open spec fn attrs_eq<S: Message>(a: Seq<Attribute<S>>, b: Seq<Attribute<S>>) -> bool {
    a.len() == b.len() && forall|i: int| 0 <= i < a.len() ==> attr_eq(#[trigger] a[i], b[i])
}

/// What comparing two DOM nodes yields: a kind change, a value change
/// when only the attribute lists differ, or no difference.
pub open spec fn obj_compare<S: Message>(a: Object<S>, b: Object<S>) -> Option<Difference> {
    if a.kind != b.kind {
        Some(Difference::Kind)
    } else if !attrs_eq(a.attributes@, b.attributes@) {
        Some(Difference::Value)
    } else {
        None
    }
}

/// Structural height of a DOM node: one more than its children's total.
pub open spec fn obj_rank<S>(o: Object<S>) -> nat
    decreases o, 0int,
{
    objs_rank(o.children@) + 1
}

pub open spec fn objs_rank<S>(s: Seq<Object<S>>) -> nat
    decreases s, 1int,
{
    if s.len() == 0 {
        0
    } else {
        obj_rank(s[0]) + objs_rank(s.drop_first())
    }
}

proof fn lemma_objs_rank_bound<S>(s: Seq<Object<S>>, i: int)
    requires
        0 <= i < s.len(),
    ensures
        obj_rank(s[i]) <= objs_rank(s),
    decreases s.len(),
{
    if i > 0 {
        lemma_objs_rank_bound(s.drop_first(), i - 1);
        assert(s.drop_first()[i - 1] == s[i]);
    }
}

pub fn attribute_eq<S: Message>(a: &Attribute<S>, b: &Attribute<S>) -> (r: bool)
    ensures
        r == attr_eq(*a, *b),
{
    match (a, b) {
        (Attribute::Text(x), Attribute::Text(y)) => *x == *y,
        (Attribute::Click(x), Attribute::Click(y)) => x.msg_eq(y),
        (Attribute::Placeholder(x), Attribute::Placeholder(y)) => *x == *y,
        (Attribute::Change(x), Attribute::Change(y)) => *x == *y,
        _ => false,
    }
}

pub fn attributes_eq<S: Message>(a: &Attributes<S>, b: &Attributes<S>) -> (r: bool)
    ensures
        r == attrs_eq(a@, b@),
{
    if a.len() != b.len() {
        return false;
    }
    let mut i: usize = 0;
    while i < a.len()
        invariant
            i <= a.len(),
            a@.len() == b@.len(),
            forall|j: int| 0 <= j < i ==> attr_eq(#[trigger] a@[j], b@[j]),
        decreases a.len() - i,
    {
        if !attribute_eq(&a[i], &b[i]) {
            return false;
        }
        i += 1;
    }
    true
}

impl<S: Message> Vertex for Object<S> {
    open spec fn spec_children(&self) -> Seq<Object<S>> {
        self.children@
    }

    open spec fn spec_compare(&self, other: &Self) -> Option<Difference> {
        obj_compare(*self, *other)
    }

    open spec fn rank(&self) -> nat {
        obj_rank(*self)
    }

    proof fn lemma_rank(&self) {
        assert forall|i: int|
            0 <= i < self.spec_children().len() implies (#[trigger] self.spec_children()[i]).rank()
            < self.rank() by {
            lemma_objs_rank_bound(self.children@, i);
        }
    }

    fn children(&self) -> (r: &Vec<Object<S>>) {
        &self.children
    }

    fn compare(&self, other: &Self) -> (r: Option<Difference>) {
        if self.kind != other.kind {
            Some(Difference::Kind)
        } else if !attributes_eq(&self.attributes, &other.attributes) {
            Some(Difference::Value)
        } else {
            None
        }
    }
}

/// Positional diff of two DOM trees.
pub fn diff<S: Message>(old: &Object<S>, new: &Object<S>) -> (r: Changeset)
    ensures
        cs_view(r@) == diff_spec(*old, *new, Seq::<usize>::empty()),
{
    crate::tree::diff(old, new)
}

impl<S> Object<S> {
    /// This node with a text attribute appended.
    pub fn text(self, text: String) -> (r: Self)
        ensures
            r.kind == self.kind,
            r.children@ == self.children@,
            r.attributes@ == self.attributes@.push(Attribute::Text(text)),
    {
        let mut this = self;
        this.attributes.push(Attribute::Text(text));
        this
    }

    /// This node with a click-message attribute appended.
    pub fn click(self, action: S) -> (r: Self)
        ensures
            r.kind == self.kind,
            r.children@ == self.children@,
            r.attributes@ == self.attributes@.push(Attribute::Click(action)),
    {
        let mut this = self;
        this.attributes.push(Attribute::Click(action));
        this
    }

    /// This node with a placeholder attribute appended.
    pub fn placeholder(self, text: String) -> (r: Self)
        ensures
            r.kind == self.kind,
            r.children@ == self.children@,
            r.attributes@ == self.attributes@.push(Attribute::Placeholder(text)),
    {
        let mut this = self;
        this.attributes.push(Attribute::Placeholder(text));
        this
    }

    /// This node with a change-callback handle appended.
    pub fn change(self, messenger: u64) -> (r: Self)
        ensures
            r.kind == self.kind,
            r.children@ == self.children@,
            r.attributes@ == self.attributes@.push(Attribute::Change(messenger)),
    {
        let mut this = self;
        this.attributes.push(Attribute::Change(messenger));
        this
    }
}

/// A stack node holding the given children.
pub fn stack<S>(objects: Vec<Object<S>>) -> (r: Object<S>)
    ensures
        r.kind == Kind::Stack,
        r.attributes@ == Seq::<Attribute<S>>::empty(),
        r.children@ == objects@,
{
    Object { kind: Kind::Stack, attributes: Vec::new(), children: objects }
}

/// A label node with no attributes and no children.
pub fn label<S>() -> (r: Object<S>)
    ensures
        r.kind == Kind::Label,
        r.attributes@ == Seq::<Attribute<S>>::empty(),
        r.children@ == Seq::<Object<S>>::empty(),
{
    Object { kind: Kind::Label, attributes: Vec::new(), children: Vec::new() }
}

/// A button node with no attributes and no children.
pub fn button<S>() -> (r: Object<S>)
    ensures
        r.kind == Kind::Button,
        r.attributes@ == Seq::<Attribute<S>>::empty(),
        r.children@ == Seq::<Object<S>>::empty(),
{
    Object { kind: Kind::Button, attributes: Vec::new(), children: Vec::new() }
}

/// A field node with no attributes and no children.
pub fn field<S>() -> (r: Object<S>)
    ensures
        r.kind == Kind::Field,
        r.attributes@ == Seq::<Attribute<S>>::empty(),
        r.children@ == Seq::<Object<S>>::empty(),
{
    Object { kind: Kind::Field, attributes: Vec::new(), children: Vec::new() }
}


/// Comparing any DOM node with itself finds no difference.
pub proof fn lemma_obj_compare_refl<S: Message>()
    ensures
        forall|x: Object<S>| #[trigger] x.spec_compare(&x) == None::<Difference>,
{
    assert forall|x: Object<S>| #[trigger] x.spec_compare(&x) == None::<Difference> by {
        assert forall|i: int|
            0 <= i < x.attributes@.len() implies attr_eq(#[trigger] x.attributes@[i], x.attributes@[i]) by {
            match x.attributes@[i] {
                Attribute::Click(m) => {
                    m.lemma_eq_refl();
                },
                _ => {},
            }
        }
        assert(attrs_eq(x.attributes@, x.attributes@));
    }
}

/// Law: diffing any DOM tree against itself yields the empty changeset.
pub proof fn lemma_dom_diff_identity<S: Message>(t: Object<S>, path: Seq<usize>)
    ensures
        diff_spec(t, t, path) == Seq::<(Seq<usize>, Operation)>::empty(),
{
    lemma_obj_compare_refl::<S>();
    lemma_diff_identity(t, path);
}

/// The two trees agree everywhere except that the node at `p` carries a
/// different attribute list: same kinds, same shape, same attributes and
/// same subtrees off the path, and at `p` itself the same kind and
/// children but attribute lists that are not equal.
pub open spec fn same_but_attrs_at<S: Message>(a: Object<S>, b: Object<S>, p: Seq<usize>) -> bool
    decreases p.len(),
{
    if p.len() == 0 {
        &&& a.kind == b.kind
        &&& a.children@ == b.children@
        &&& !attrs_eq(a.attributes@, b.attributes@)
    } else {
        &&& a.kind == b.kind
        &&& attrs_eq(a.attributes@, b.attributes@)
        &&& a.children@.len() == b.children@.len()
        &&& 0 <= p[0] < a.children@.len()
        &&& forall|j: int|
            0 <= j < a.children@.len() && j != p[0] ==> a.children@[j] == b.children@[j]
        &&& same_but_attrs_at(a.children@[p[0] as int], b.children@[p[0] as int], p.drop_first())
    }
}

/// Law: if two trees have identical structure and kinds and differ only
/// in the attributes of the node at `p`, the diff is exactly one update
/// at that node's path.
pub proof fn lemma_localized_update<S: Message>(
    a: Object<S>,
    b: Object<S>,
    p: Seq<usize>,
    path: Seq<usize>,
)
    requires
        same_but_attrs_at(a, b, p),
    ensures
        diff_spec(a, b, path) == seq![(path + p, Operation::Update)],
    decreases p.len(), a.children@.len() + b.children@.len() + 1,
{
    lemma_obj_compare_refl::<S>();
    if p.len() == 0 {
        assert(a.spec_compare(&b) == Some(Difference::Value));
        lemma_diff_kids_equal(a, b, path, 0);
        assert(path + p =~= path);
        assert(diff_spec(a, b, path) =~= seq![(path + p, Operation::Update)]);
    } else {
        assert(a.spec_compare(&b) == None::<Difference>);
        lemma_localized_kids(a, b, p, path, 0);
        assert(diff_spec(a, b, path) =~= seq![(path + p, Operation::Update)]);
    }
}

/// The pairwise child walk for trees that differ only at `p` contributes
/// exactly the one update, from the child on the path.
proof fn lemma_localized_kids<S: Message>(
    a: Object<S>,
    b: Object<S>,
    p: Seq<usize>,
    path: Seq<usize>,
    i: int,
)
    requires
        0 <= i,
        p.len() >= 1,
        same_but_attrs_at(a, b, p),
    ensures
        diff_kids(a, b, path, i) == if i <= p[0] {
            seq![(path + p, Operation::Update)]
        } else {
            Seq::<(Seq<usize>, Operation)>::empty()
        },
    decreases p.len(), (if a.spec_children().len() >= b.spec_children().len() {
        a.spec_children().len()
    } else {
        b.spec_children().len()
    }) - i,
{
    lemma_obj_compare_refl::<S>();
    let olds = a.children@;
    let news = b.children@;
    let len = olds.len() as int;
    if i >= len {
        assert(i > p[0]);
        assert(diff_kids(a, b, path, i) =~= Seq::<(Seq<usize>, Operation)>::empty());
    } else {
        lemma_localized_kids(a, b, p, path, i + 1);
        if i == p[0] {
            lemma_localized_update(olds[i], news[i], p.drop_first(), path.push(i as usize));
            assert(path.push(i as usize) + p.drop_first() =~= path + p);
            assert(diff_kids(a, b, path, i) =~= seq![(path + p, Operation::Update)]);
        } else {
            assert(olds[i] == news[i]);
            lemma_diff_identity(olds[i], path.push(i as usize));
            if i < p[0] {
                assert(diff_kids(a, b, path, i) =~= seq![(path + p, Operation::Update)]);
            } else {
                assert(diff_kids(a, b, path, i) =~= Seq::<(Seq<usize>, Operation)>::empty());
            }
        }
    }
}


/// Every DOM tree is bounded in width: a node's children are held in a
/// vector, so their count fits a child index.
pub proof fn lemma_obj_bounded_width<S: Message>(t: Object<S>)
    ensures
        bounded_width(t),
    decreases t,
{
    vstd::std_specs::vec::axiom_spec_len(&t.children);
    assert forall|i: int| 0 <= i < t.children@.len() implies bounded_width(
        #[trigger] t.children@[i],
    ) by {
        lemma_obj_bounded_width(t.children@[i]);
    }
    assert(bounded_width(t));
}

} // verus!
