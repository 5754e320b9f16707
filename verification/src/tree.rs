//! Generic positional tree diff.
//!
//! Any tree-shaped type that exposes an ordered list of children and a
//! two-node comparison (the [`Vertex`] capability) can be diffed: given an
//! old and a new root, [`diff`] produces an ordered [`Changeset`] of
//! `(Path, Operation)` pairs that describes how to turn the old tree into
//! the new one.

use vstd::prelude::*;

verus! {

/// Difference class reported when two aligned nodes are compared:
/// the node's fundamental type changed, or only its values did.
#[derive(Clone, Copy, Debug, PartialEq, Eq, Structural)]
pub enum Difference {
    Kind,
    Value,
}

/// One step of a changeset: create the subtree at a path, patch the node
/// at a path in place, or drop the subtree at a path.
#[derive(Clone, Copy, Debug, PartialEq, Eq, Structural)]
pub enum Operation {
    Create,
    Update,
    Remove,
}

/// Ordered sequence of child indices addressing a node in one tree
/// snapshot; the root is the empty sequence.
pub struct Path {
    pub indices: Vec<usize>,
}

impl View for Path {
    type V = Seq<usize>;

    open spec fn view(&self) -> Seq<usize> {
        self.indices@
    }
}

impl Path {
    /// The root path.
    pub fn new() -> (r: Path)
        ensures
            r@ == Seq::<usize>::empty(),
    {
        Path { indices: Vec::new() }
    }

    pub fn from_vec(indices: Vec<usize>) -> (r: Path)
        ensures
            r@ == indices@,
    {
        Path { indices }
    }

    pub fn push(&mut self, i: usize)
        ensures
            final(self)@ == old(self)@.push(i),
    {
        self.indices.push(i);
    }

    pub fn len(&self) -> (n: usize)
        ensures
            n == self@.len(),
    {
        self.indices.len()
    }

    pub fn index(&self, i: usize) -> (r: usize)
        requires
            i < self@.len(),
        ensures
            r == self@[i as int],
    {
        self.indices[i]
    }

    /// A copy of this path.
    pub fn duplicate(&self) -> (r: Path)
        ensures
            r@ == self@,
    {
        let mut indices: Vec<usize> = Vec::new();
        let mut k: usize = 0;
        while k < self.indices.len()
            invariant
                k <= self.indices.len(),
                indices@ == self.indices@.take(k as int),
            decreases self.indices.len() - k,
        {
            indices.push(self.indices[k]);
            proof {
                assert(indices@ =~= self.indices@.take(k + 1 as int));
            }
            k += 1;
        }
        proof {
            assert(indices@ =~= self.indices@);
        }
        Path { indices }
    }

    /// The path of this node's `i`-th child.
    pub fn child(&self, i: usize) -> (r: Path)
        ensures
            r@ == self@.push(i),
    {
        let mut r = self.duplicate();
        r.push(i);
        r
    }
}

/// One element of a changeset.
pub type Change = (Path, Operation);

/// Ordered description of a tree transition.
pub type Changeset = Vec<Change>;

/// Mathematical value of a change: the addressed path and the operation.
pub open spec fn change_view(c: Change) -> (Seq<usize>, Operation) {
    (c.0@, c.1)
}

/// Mathematical value of a changeset.
pub open spec fn cs_view(s: Seq<Change>) -> Seq<(Seq<usize>, Operation)> {
    s.map_values(|c: Change| change_view(c))
}

/// Capability contract for diffable tree-shaped types: an ordered list of
/// same-typed children and a two-node comparison. `None` means the nodes
/// are equivalent (recurse into children only); `Some(Difference::Kind)`
/// means the whole subtree is superseded; `Some(Difference::Value)` means
/// the node is patched in place and children are still diffed pairwise.
pub trait Vertex: Sized {
    /// The children of this node, as mathematical values.
    spec fn spec_children(&self) -> Seq<Self>;

    /// What comparing this node with `other` yields.
    spec fn spec_compare(&self, other: &Self) -> Option<Difference>;

    /// A well-founded measure: every child ranks strictly below its parent.
    spec fn rank(&self) -> nat;

    proof fn lemma_rank(&self)
        ensures
            forall|i: int|
                0 <= i < self.spec_children().len() ==> (#[trigger] self.spec_children()[i]).rank()
                    < self.rank(),
    ;

    fn children(&self) -> (r: &Vec<Self>)
        ensures
            r@ == self.spec_children(),
    ;

    fn compare(&self, other: &Self) -> (r: Option<Difference>)
        ensures
            r == self.spec_compare(other),
    ;
}

/// The changes contributed by the pairwise walk of children from index
/// `i` on: a recursive diff where both sides have an `i`-th child, a bare
/// `Create` where only the new side does, a bare `Remove` where only the
/// old side does.
pub open spec fn diff_kids<V: Vertex>(po: V, pn: V, path: Seq<usize>, i: int) -> Seq<
    (Seq<usize>, Operation),
>
    decreases po.rank(), (if po.spec_children().len() >= pn.spec_children().len() {
        po.spec_children().len()
    } else {
        pn.spec_children().len()
    }) - i,
    via diff_kids_decreases::<V>
{
    let olds = po.spec_children();
    let news = pn.spec_children();
    let len = if olds.len() >= news.len() {
        olds.len()
    } else {
        news.len()
    };
    if i < 0 || i >= len {
        Seq::empty()
    } else {
        let head = if i < olds.len() && i < news.len() {
            diff_spec(olds[i], news[i], path.push(i as usize))
        } else if i < news.len() {
            seq![(path.push(i as usize), Operation::Create)]
        } else {
            seq![(path.push(i as usize), Operation::Remove)]
        };
        head + diff_kids(po, pn, path, i + 1)
    }
}

#[via_fn]
proof fn diff_kids_decreases<V: Vertex>(po: V, pn: V, path: Seq<usize>, i: int) {
    po.lemma_rank();
}

/// The changeset that diffing `old` against `new` at `path` yields:
/// a kind change replaces the whole subtree with one `Create`, a value
/// change patches the node and still walks the children, and equivalent
/// nodes contribute nothing themselves.
pub open spec fn diff_spec<V: Vertex>(old: V, new: V, path: Seq<usize>) -> Seq<
    (Seq<usize>, Operation),
>
    decreases old.rank(), old.spec_children().len() + new.spec_children().len() + 1,
{
    match old.spec_compare(&new) {
        Some(Difference::Kind) => seq![(path, Operation::Create)],
        Some(Difference::Value) => seq![(path, Operation::Update)] + diff_kids(old, new, path, 0),
        None => diff_kids(old, new, path, 0),
    }
}

/// Positional tree diff of two roots sharing the [`Vertex`] capability.
pub fn diff<V: Vertex>(old: &V, new: &V) -> (r: Changeset)
    ensures
        cs_view(r@) == diff_spec(*old, *new, Seq::<usize>::empty()),
{
    let mut out: Changeset = Vec::new();
    let root = Path::new();
    diff_at(old, new, &root, &mut out);
    proof {
        assert(cs_view(out@) =~= diff_spec(*old, *new, Seq::<usize>::empty()));
    }
    out
}

/// Diff one aligned pair of subtrees, appending its changes to `out`.
fn diff_at<V: Vertex>(prev: &V, next: &V, path: &Path, out: &mut Changeset)
    ensures
        cs_view(final(out)@) == cs_view(old(out)@) + diff_spec(*prev, *next, path@),
    decreases prev.rank(),
{
    let ghost pre = out@;
    let ghost olds = prev.spec_children();
    let ghost news = next.spec_children();
    let cmp = prev.compare(next);
    if let Some(Difference::Kind) = cmp {
        out.push((path.duplicate(), Operation::Create));
        proof {
            assert(cs_view(out@) =~= cs_view(pre) + diff_spec(*prev, *next, path@));
        }
        return ;
    }
    if let Some(Difference::Value) = cmp {
        out.push((path.duplicate(), Operation::Update));
        proof {
            assert(cs_view(out@) =~= cs_view(pre) + seq![(path@, Operation::Update)]);
        }
    }
    let ghost base = out@;
    let oc = prev.children();
    let nc = next.children();
    let olen = oc.len();
    let nlen = nc.len();
    let len = if olen >= nlen {
        olen
    } else {
        nlen
    };
    proof {
        prev.lemma_rank();
    }
    let mut i: usize = 0;
    while i < len
        invariant
            i <= len,
            olds == prev.spec_children(),
            news == next.spec_children(),
            olen == olds.len(),
            nlen == news.len(),
            len == if olds.len() >= news.len() {
                olds.len()
            } else {
                news.len()
            },
            oc@ == olds,
            nc@ == news,
            forall|j: int| 0 <= j < olds.len() ==> (#[trigger] olds[j]).rank() < prev.rank(),
            cs_view(out@) + diff_kids(*prev, *next, path@, i as int) == cs_view(base) + diff_kids(
                *prev,
                *next,
                path@,
                0,
            ),
        decreases len - i,
    {
        let ghost mid = out@;
        let kid_path = path.child(i);
        let ghost kp = kid_path@;
        let ghost tail = diff_kids(*prev, *next, path@, i as int + 1);
        if i < olen && i < nlen {
            diff_at(&oc[i], &nc[i], &kid_path, out);
            proof {
                assert(((i as int) as usize) == i);
                assert(diff_kids(*prev, *next, path@, i as int) =~= diff_spec(
                    olds[i as int],
                    news[i as int],
                    path@.push(i),
                ) + tail);
                assert(cs_view(out@) =~= cs_view(mid) + diff_spec(
                    olds[i as int],
                    news[i as int],
                    path@.push(i),
                ));
                assert(cs_view(out@) + tail =~= cs_view(mid) + diff_kids(*prev, *next, path@, i as int));
            }
        } else if i < nlen {
            out.push((kid_path, Operation::Create));
            proof {
                assert(((i as int) as usize) == i);
                assert(diff_kids(*prev, *next, path@, i as int) =~= seq![(path@.push(i), Operation::Create)] + tail);
                assert(cs_view(out@) =~= cs_view(mid) + seq![(kp, Operation::Create)]);
                assert(cs_view(out@) + tail =~= cs_view(mid) + diff_kids(*prev, *next, path@, i as int));
            }
        } else {
            out.push((kid_path, Operation::Remove));
            proof {
                assert(((i as int) as usize) == i);
                assert(diff_kids(*prev, *next, path@, i as int) =~= seq![(path@.push(i), Operation::Remove)] + tail);
                assert(cs_view(out@) =~= cs_view(mid) + seq![(kp, Operation::Remove)]);
                assert(cs_view(out@) + tail =~= cs_view(mid) + diff_kids(*prev, *next, path@, i as int));
            }
        }
        proof {
            assert(cs_view(out@) + tail =~= cs_view(base) + diff_kids(*prev, *next, path@, 0));
            assert((i + 1) as int == i as int + 1);
        }
        i += 1;
    }
    proof {
        assert(diff_kids(*prev, *next, path@, len as int) =~= Seq::<(Seq<usize>, Operation)>::empty());
        assert(cs_view(out@) =~= cs_view(base) + diff_kids(*prev, *next, path@, 0));
        assert(cs_view(out@) =~= cs_view(pre) + diff_spec(*prev, *next, path@));
    }
}


/// The node a path addresses within one snapshot: descend one child index
/// at a time from the root.
pub open spec fn find_spec<V: Vertex>(root: V, path: Seq<usize>) -> Option<V>
    decreases path.len(),
{
    if path.len() == 0 {
        Some(root)
    } else if path[0] < root.spec_children().len() {
        find_spec(root.spec_children()[path[0] as int], path.drop_first())
    } else {
        None
    }
}

/// Resolve `path` in the tree rooted at `root`.
pub fn find<'a, V: Vertex>(root: &'a V, path: &Path) -> (r: Option<&'a V>)
    ensures
        match r {
            Some(n) => find_spec(*root, path@) == Some(*n),
            None => find_spec(*root, path@) == None::<V>,
        },
{
    let r = find_from(root, path, 0);
    proof {
        assert(path@.skip(0) =~= path@);
    }
    r
}

/// Resolve the suffix of `path` that starts at `k`.
fn find_from<'a, V: Vertex>(root: &'a V, path: &Path, k: usize) -> (r: Option<&'a V>)
    requires
        k <= path@.len(),
    ensures
        match r {
            Some(n) => find_spec(*root, path@.skip(k as int)) == Some(*n),
            None => find_spec(*root, path@.skip(k as int)) == None::<V>,
        },
    decreases path@.len() - k,
{
    if k == path.len() {
        Some(root)
    } else {
        let i = path.index(k);
        let kids = root.children();
        proof {
            assert(path@.skip(k as int)[0] == path@[k as int]);
            assert(path@.skip(k as int).drop_first() =~= path@.skip(k as int + 1));
        }
        if i < kids.len() {
            find_from(&kids[i], path, k + 1)
        } else {
            None
        }
    }
}

/// The decimal digits of `n`, most significant first.
pub open spec fn dec_str(n: nat) -> Seq<char>
    decreases n,
{
    if n < 10 {
        seq![digit_char(n)]
    } else {
        dec_str(n / 10).push(digit_char(n % 10))
    }
}

/// The character for one decimal digit.
pub open spec fn digit_char(d: nat) -> char {
    if d == 0 {
        '0'
    } else if d == 1 {
        '1'
    } else if d == 2 {
        '2'
    } else if d == 3 {
        '3'
    } else if d == 4 {
        '4'
    } else if d == 5 {
        '5'
    } else if d == 6 {
        '6'
    } else if d == 7 {
        '7'
    } else if d == 8 {
        '8'
    } else {
        '9'
    }
}

/// The textual identifier of a path: its indices in decimal, dot-joined;
/// the root is the empty string.
pub open spec fn path_str(p: Seq<usize>) -> Seq<char>
    decreases p.len(),
{
    if p.len() == 0 {
        Seq::empty()
    } else if p.len() == 1 {
        dec_str(p[0] as nat)
    } else {
        path_str(p.drop_last()) + seq!['.'] + dec_str(p.last() as nat)
    }
}

fn digit_literal(d: usize) -> (r: &'static str)
    requires
        d < 10,
    ensures
        r@ == seq![digit_char(d as nat)],
{
    let r: &'static str = if d == 0 {
        "0"
    } else if d == 1 {
        "1"
    } else if d == 2 {
        "2"
    } else if d == 3 {
        "3"
    } else if d == 4 {
        "4"
    } else if d == 5 {
        "5"
    } else if d == 6 {
        "6"
    } else if d == 7 {
        "7"
    } else if d == 8 {
        "8"
    } else {
        "9"
    };
    proof {
        reveal_strlit("0");
        reveal_strlit("1");
        reveal_strlit("2");
        reveal_strlit("3");
        reveal_strlit("4");
        reveal_strlit("5");
        reveal_strlit("6");
        reveal_strlit("7");
        reveal_strlit("8");
        reveal_strlit("9");
        assert(r@ =~= seq![digit_char(d as nat)]);
    }
    r
}

/// Append the decimal digits of `n` to `s`.
fn push_decimal(s: &mut String, n: usize)
    ensures
        final(s)@ == old(s)@ + dec_str(n as nat),
    decreases n,
{
    if n < 10 {
        s.append(digit_literal(n));
        proof {
            assert(final(s)@ =~= old(s)@ + dec_str(n as nat));
        }
    } else {
        push_decimal(s, n / 10);
        s.append(digit_literal(n % 10));
        proof {
            assert(dec_str(n as nat) =~= dec_str(n as nat / 10).push(digit_char(n as nat % 10)));
            assert(final(s)@ =~= old(s)@ + dec_str(n as nat));
        }
    }
}

impl Path {
    /// The textual identifier of this path.
    pub fn to_string(&self) -> (r: String)
        ensures
            r@ == path_str(self@),
    {
        let mut r = String::new();
        let mut i: usize = 0;
        while i < self.indices.len()
            invariant
                i <= self.indices.len(),
                r@ == path_str(self@.take(i as int)),
            decreases self.indices.len() - i,
        {
            if i > 0 {
                r.append(".");
            }
            push_decimal(&mut r, self.indices[i]);
            proof {
                reveal_strlit(".");
                let t1 = self@.take(i as int + 1);
                assert(t1.drop_last() =~= self@.take(i as int));
                assert(t1.last() == self@[i as int]);
                if i > 0 {
                    assert(r@ =~= path_str(self@.take(i as int)) + seq!['.'] + dec_str(
                        self@[i as int] as nat,
                    ));
                    assert(r@ =~= path_str(t1));
                } else {
                    assert(t1 =~= seq![self@[0]]);
                    assert(r@ =~= path_str(t1));
                }
            }
            i += 1;
        }
        proof {
            assert(self@.take(self.indices.len() as int) =~= self@);
        }
        r
    }
}


/// Law: diffing a tree against itself yields the empty changeset, for any
/// vertex type whose comparison finds no difference between a node and
/// itself.
pub proof fn lemma_diff_identity<V: Vertex>(t: V, path: Seq<usize>)
    requires
        forall|x: V| #[trigger] x.spec_compare(&x) == None::<Difference>,
    ensures
        diff_spec(t, t, path) == Seq::<(Seq<usize>, Operation)>::empty(),
    decreases t.rank(), 2 * t.spec_children().len() + 1,
{
    assert(t.spec_compare(&t) == None::<Difference>);
    lemma_diff_kids_equal(t, t, path, 0);
}

/// Law: the pairwise child walk contributes nothing when the two sides
/// have the same children.
pub proof fn lemma_diff_kids_equal<V: Vertex>(a: V, b: V, path: Seq<usize>, i: int)
    requires
        forall|x: V| #[trigger] x.spec_compare(&x) == None::<Difference>,
        a.spec_children() == b.spec_children(),
    ensures
        diff_kids(a, b, path, i) == Seq::<(Seq<usize>, Operation)>::empty(),
    decreases a.rank(), (if a.spec_children().len() >= b.spec_children().len() {
        a.spec_children().len()
    } else {
        b.spec_children().len()
    }) - i,
{
    let olds = a.spec_children();
    let len = olds.len() as int;
    if 0 <= i < len {
        a.lemma_rank();
        lemma_diff_identity(olds[i], path.push(i as usize));
        lemma_diff_kids_equal(a, b, path, i + 1);
        assert(diff_kids(a, b, path, i) =~= Seq::<(Seq<usize>, Operation)>::empty());
    }
}


/// Every change a subtree diff yields sits at or under the subtree's
/// path, and at most the first change sits at the path itself.
pub proof fn lemma_diff_prefix<V: Vertex>(a: V, b: V, path: Seq<usize>)
    ensures
        forall|j: int|
            0 <= j < diff_spec(a, b, path).len() ==> path.is_prefix_of(
                (#[trigger] diff_spec(a, b, path)[j]).0,
            ),
        forall|j: int|
            1 <= j < diff_spec(a, b, path).len() ==> (#[trigger] diff_spec(a, b, path)[j]).0.len()
                > path.len(),
    decreases a.rank(), 2 * a.spec_children().len() + 2 * b.spec_children().len() + 1,
{
    let cs = diff_spec(a, b, path);
    lemma_diff_kids_prefix(a, b, path, 0);
    assert(path.is_prefix_of(path)) by {
        assert(path.take(path.len() as int) =~= path);
    }
    let kids = diff_kids(a, b, path, 0);
    match a.spec_compare(&b) {
        Some(Difference::Kind) => {
        },
        Some(Difference::Value) => {
            assert forall|j: int| 1 <= j < cs.len() implies (#[trigger] cs[j]).0.len()
                > path.len() by {
                assert(cs[j] == kids[j - 1]);
            }
            assert forall|j: int| 0 <= j < cs.len() implies path.is_prefix_of(
                (#[trigger] cs[j]).0,
            ) by {
                if j >= 1 {
                    assert(cs[j] == kids[j - 1]);
                }
            }
        },
        None => {
            assert forall|j: int| 0 <= j < cs.len() implies path.is_prefix_of(
                (#[trigger] cs[j]).0,
            ) && (j >= 1 ==> cs[j].0.len() > path.len()) by {
                assert(cs[j] == kids[j]);
            }
        },
    }
}

/// Every change the child walk from `i` on yields sits strictly under
/// `path`, its first extra index at least `i`.
proof fn lemma_diff_kids_prefix<V: Vertex>(a: V, b: V, path: Seq<usize>, i: int)
    requires
        0 <= i,
    ensures
        forall|j: int|
            0 <= j < diff_kids(a, b, path, i).len() ==> path.is_prefix_of(
                (#[trigger] diff_kids(a, b, path, i)[j]).0,
            ) && (diff_kids(a, b, path, i)[j]).0.len() > path.len(),
    decreases a.rank(), (if a.spec_children().len() >= b.spec_children().len() {
        a.spec_children().len()
    } else {
        b.spec_children().len()
    }) - i,
{
    let olds = a.spec_children();
    let news = b.spec_children();
    let len: int = if olds.len() >= news.len() {
        olds.len() as int
    } else {
        news.len() as int
    };
    if i >= len {
        return ;
    }
    a.lemma_rank();
    let cs = diff_kids(a, b, path, i);
    let child = path.push(i as usize);
    let tail = diff_kids(a, b, path, i + 1);
    lemma_diff_kids_prefix(a, b, path, i + 1);
    assert(path.is_prefix_of(child)) by {
        assert(child.take(path.len() as int) =~= path);
    }
    if i < olds.len() && i < news.len() {
        let head = diff_spec(olds[i], news[i], child);
        lemma_diff_prefix(olds[i], news[i], child);
        assert forall|j: int| 0 <= j < cs.len() implies path.is_prefix_of((#[trigger] cs[j]).0)
            && (cs[j]).0.len() > path.len() by {
            if j < head.len() {
                assert(cs[j] == head[j]);
                assert(child.is_prefix_of(cs[j].0));
                assert(cs[j].0.take(child.len() as int) =~= child);
                assert(cs[j].0.take(path.len() as int) =~= path);
            } else {
                assert(cs[j] == tail[j - head.len()]);
            }
        }
    } else {
        assert forall|j: int| 0 <= j < cs.len() implies path.is_prefix_of((#[trigger] cs[j]).0)
            && (cs[j]).0.len() > path.len() by {
            if j == 0 {
                assert(cs[0].0 == child);
            } else {
                assert(cs[j] == tail[j - 1]);
            }
        }
    }
}

/// The changeset holds one `Create` at `q`, no other operation at `q`,
/// and never two operations at `q`.
pub open spec fn exactly_one_create_at(cs: Seq<(Seq<usize>, Operation)>, q: Seq<usize>) -> bool {
    &&& exists|j: int| 0 <= j < cs.len() && #[trigger] cs[j] == (q, Operation::Create)
    &&& forall|j: int| 0 <= j < cs.len() && (#[trigger] cs[j]).0 == q ==> cs[j].1 == Operation::Create
    &&& forall|j1: int, j2: int|
        0 <= j1 < cs.len() && 0 <= j2 < cs.len() && (#[trigger] cs[j1]).0 == q && (
        #[trigger] cs[j2]).0 == q ==> j1 == j2
}

/// The changeset holds no operation strictly under `q`.
pub open spec fn none_below(cs: Seq<(Seq<usize>, Operation)>, q: Seq<usize>) -> bool {
    forall|j: int|
        0 <= j < cs.len() ==> !(q.is_prefix_of((#[trigger] cs[j]).0) && (cs[j]).0.len() > q.len())
}

/// The node at `p` changes kind between the two trees, and the walk down
/// to it stays aligned: every proper ancestor pair exists on both sides
/// and is itself not a kind change.
pub open spec fn replaced_at<V: Vertex>(a: V, b: V, p: Seq<usize>) -> bool
    decreases p.len(),
{
    if p.len() == 0 {
        a.spec_compare(&b) == Some(Difference::Kind)
    } else {
        &&& a.spec_compare(&b) != Some(Difference::Kind)
        &&& a.spec_children().len() <= usize::MAX
        &&& b.spec_children().len() <= usize::MAX
        &&& p[0] < a.spec_children().len()
        &&& p[0] < b.spec_children().len()
        &&& replaced_at(a.spec_children()[p[0] as int], b.spec_children()[p[0] as int], p.drop_first())
    }
}

/// Law: when the node at `p` changes kind, the diff carries exactly one
/// `Create` at that path and no operation for any of its descendants:
/// the whole subtree is superseded, not merged.
pub proof fn lemma_kind_change_replace<V: Vertex>(a: V, b: V, p: Seq<usize>, path: Seq<usize>)
    requires
        replaced_at(a, b, p),
    ensures
        exactly_one_create_at(diff_spec(a, b, path), path + p),
        none_below(diff_spec(a, b, path), path + p),
    decreases p.len(), 2 * a.spec_children().len() + 2 * b.spec_children().len() + 1,
{
    let cs = diff_spec(a, b, path);
    let q = path + p;
    if p.len() == 0 {
        assert(q =~= path);
        assert(cs == seq![(path, Operation::Create)]);
        assert(cs[0] == (q, Operation::Create));
    } else {
        lemma_kind_change_kids(a, b, p, path, 0);
        let kids = diff_kids(a, b, path, 0);
        assert(q.len() > path.len());
        if a.spec_compare(&b) == Some(Difference::Value) {
            assert(cs == seq![(path, Operation::Update)] + kids);
            let w = choose|j: int| 0 <= j < kids.len() && #[trigger] kids[j] == (q, Operation::Create);
            assert(cs[w + 1] == (q, Operation::Create));
            assert forall|j: int| 0 <= j < cs.len() && (#[trigger] cs[j]).0 == q implies cs[j].1
                == Operation::Create by {
                assert(cs[j] == kids[j - 1]);
            }
            assert forall|j1: int, j2: int|
                0 <= j1 < cs.len() && 0 <= j2 < cs.len() && (#[trigger] cs[j1]).0 == q && (
                #[trigger] cs[j2]).0 == q implies j1 == j2 by {
                assert(cs[j1] == kids[j1 - 1]);
                assert(cs[j2] == kids[j2 - 1]);
            }
            assert forall|j: int| 0 <= j < cs.len() implies !(q.is_prefix_of(
                (#[trigger] cs[j]).0,
            ) && (cs[j]).0.len() > q.len()) by {
                if j == 0 {
                    assert(cs[0].0.len() < q.len());
                } else {
                    assert(cs[j] == kids[j - 1]);
                }
            }
        } else {
            assert(a.spec_compare(&b) is None);
            assert(cs == kids);
        }
    }
}

/// The child walk from `i` on carries the single replacing `Create` when
/// the replaced path's head is still ahead, and nothing at or under the
/// replaced path otherwise.
proof fn lemma_kind_change_kids<V: Vertex>(a: V, b: V, p: Seq<usize>, path: Seq<usize>, i: int)
    requires
        0 <= i,
        p.len() >= 1,
        replaced_at(a, b, p),
    ensures
        i <= p[0] ==> exactly_one_create_at(diff_kids(a, b, path, i), path + p) && none_below(
            diff_kids(a, b, path, i),
            path + p,
        ),
        i > p[0] ==> forall|j: int|
            0 <= j < diff_kids(a, b, path, i).len() ==> !(path + p).is_prefix_of(
                (#[trigger] diff_kids(a, b, path, i)[j]).0,
            ),
    decreases p.len(), (if a.spec_children().len() >= b.spec_children().len() {
        a.spec_children().len()
    } else {
        b.spec_children().len()
    }) - i,
{
    let olds = a.spec_children();
    let news = b.spec_children();
    let len: int = if olds.len() >= news.len() {
        olds.len() as int
    } else {
        news.len() as int
    };
    let q = path + p;
    let cs = diff_kids(a, b, path, i);
    assert(q[path.len() as int] == p[0]);
    assert(q.len() > path.len());
    if i >= len {
        return ;
    }
    let child = path.push(i as usize);
    let tail = diff_kids(a, b, path, i + 1);
    lemma_kind_change_kids(a, b, p, path, i + 1);
    assert(((i as usize) as int) == i);
    assert(child.take(path.len() as int) =~= path);
    assert(child[path.len() as int] == i);
    if i == p[0] {
        let head = diff_spec(olds[i], news[i], child);
        lemma_kind_change_replace(olds[i], news[i], p.drop_first(), child);
        assert(child + p.drop_first() =~= q);
        lemma_diff_prefix(olds[i], news[i], child);
        // anything in the tail has first extra index > p[0], so never at or under q
        assert forall|j: int| 0 <= j < cs.len() implies ((#[trigger] cs[j]).0 == q ==> cs[j].1
            == Operation::Create) && !(q.is_prefix_of(cs[j].0) && cs[j].0.len() > q.len()) by {
            if j < head.len() {
                assert(cs[j] == head[j]);
            } else {
                assert(cs[j] == tail[j - head.len()]);
                assert(!q.is_prefix_of(cs[j].0)) by {
                    if q.is_prefix_of(cs[j].0) {
                        assert(cs[j].0.take(q.len() as int) =~= q);
                        assert(cs[j].0[path.len() as int] == p[0]);
                    }
                }
            }
        }
        let w = choose|j: int| 0 <= j < head.len() && #[trigger] head[j] == (q, Operation::Create);
        assert(cs[w] == (q, Operation::Create));
        assert forall|j1: int, j2: int|
            0 <= j1 < cs.len() && 0 <= j2 < cs.len() && (#[trigger] cs[j1]).0 == q && (
            #[trigger] cs[j2]).0 == q implies j1 == j2 by {
            assert(j1 < head.len() && j2 < head.len()) by {
                if j1 >= head.len() {
                    assert(cs[j1] == tail[j1 - head.len()]);
                    assert(cs[j1].0.take(q.len() as int) =~= q);
                    assert(cs[j1].0[path.len() as int] == p[0]);
                }
                if j2 >= head.len() {
                    assert(cs[j2] == tail[j2 - head.len()]);
                    assert(cs[j2].0.take(q.len() as int) =~= q);
                    assert(cs[j2].0[path.len() as int] == p[0]);
                }
            }
            assert(cs[j1] == head[j1] && cs[j2] == head[j2]);
        }
    } else {
        // this block's changes all carry child index `i`, not `p[0]`
        let ghost headlen: int = if i < olds.len() && i < news.len() {
            diff_spec(olds[i], news[i], child).len() as int
        } else {
            1
        };
        if i < olds.len() && i < news.len() {
            lemma_diff_prefix(olds[i], news[i], child);
        }
        assert forall|j: int| 0 <= j < cs.len() implies #[trigger] cs[j] == (if j < headlen {
            cs[j]
        } else {
            tail[j - headlen]
        }) && (j < headlen ==> cs[j].0[path.len() as int] == i) by {
            if j < headlen {
                if i < olds.len() && i < news.len() {
                    let head = diff_spec(olds[i], news[i], child);
                    assert(cs[j] == head[j]);
                    assert(child.is_prefix_of(cs[j].0));
                    assert(cs[j].0.take(child.len() as int) =~= child);
                } else {
                    assert(cs[j].0 == child);
                }
            }
        }
        assert forall|j: int| 0 <= j < headlen && j < cs.len() implies !(q.is_prefix_of(
            (#[trigger] cs[j]).0,
        )) by {
            assert(cs[j].0[path.len() as int] == i);
            if q.is_prefix_of(cs[j].0) {
                assert(cs[j].0.take(q.len() as int) =~= q);
                assert(cs[j].0[path.len() as int] == p[0]);
            }
        }
        if i > p[0] {
            assert forall|j: int| 0 <= j < cs.len() implies !(q.is_prefix_of(
                (#[trigger] cs[j]).0,
            )) by {
                if j >= headlen {
                    assert(cs[j] == tail[j - headlen]);
                }
            }
        }
        if i < p[0] {
            let w = choose|j: int|
                0 <= j < tail.len() && #[trigger] tail[j] == (q, Operation::Create);
            assert(cs[headlen + w] == (q, Operation::Create));
            assert forall|j1: int, j2: int|
                0 <= j1 < cs.len() && 0 <= j2 < cs.len() && (#[trigger] cs[j1]).0 == q && (
                #[trigger] cs[j2]).0 == q implies j1 == j2 by {
                assert(j1 >= headlen && j2 >= headlen);
                assert(cs[j1] == tail[j1 - headlen] && cs[j2] == tail[j2 - headlen]);
            }
            assert forall|j: int| 0 <= j < cs.len() && (#[trigger] cs[j]).0 == q implies cs[j].1
                == Operation::Create by {
                assert(j >= headlen);
                assert(cs[j] == tail[j - headlen]);
            }
            assert forall|j: int| 0 <= j < cs.len() implies !(q.is_prefix_of(
                (#[trigger] cs[j]).0,
            ) && (cs[j]).0.len() > q.len()) by {
                if j >= headlen {
                    assert(cs[j] == tail[j - headlen]);
                }
            }
        }
    }
}


/// No change in the set addresses a proper ancestor of an earlier
/// change's path: the order the diff engine itself emits.
pub open spec fn ancestor_first(cs: Seq<(Seq<usize>, Operation)>) -> bool {
    forall|i: int, j: int|
        0 <= i < j < cs.len() ==> !((#[trigger] cs[j]).0.is_prefix_of((#[trigger] cs[i]).0)
            && cs[j].0.len() < cs[i].0.len())
}

/// Every node of the tree holds few enough children for a vector to
/// carry them.
pub open spec fn bounded_width<V: Vertex>(a: V) -> bool
    decreases a.rank(),
    via bounded_width_decreases::<V>
{
    a.spec_children().len() <= usize::MAX && forall|i: int|
        0 <= i < a.spec_children().len() ==> bounded_width(#[trigger] a.spec_children()[i])
}

#[via_fn]
proof fn bounded_width_decreases<V: Vertex>(a: V) {
    a.lemma_rank();
}

/// Law: the diff engine emits changes ancestor-first: a node's own
/// operation comes before its descendants' and sibling subtrees are
/// walked in index order, so no change ever addresses a proper ancestor
/// of an earlier change's path.
pub proof fn lemma_diff_ancestor_first<V: Vertex>(a: V, b: V, path: Seq<usize>)
    requires
        bounded_width(a),
        bounded_width(b),
    ensures
        ancestor_first(diff_spec(a, b, path)),
    decreases a.rank(), 2 * a.spec_children().len() + 2 * b.spec_children().len() + 1,
{
    let cs = diff_spec(a, b, path);
    let kids = diff_kids(a, b, path, 0);
    lemma_diff_af_kids(a, b, path, 0);
    lemma_diff_kids_prefix(a, b, path, 0);
    match a.spec_compare(&b) {
        Some(Difference::Kind) => {
        },
        Some(Difference::Value) => {
            assert forall|i: int, j: int| 0 <= i < j < cs.len() implies !((
            #[trigger] cs[j]).0.is_prefix_of((#[trigger] cs[i]).0) && cs[j].0.len()
                < cs[i].0.len()) by {
                assert(cs[j] == kids[j - 1]);
                if i >= 1 {
                    assert(cs[i] == kids[i - 1]);
                } else {
                    assert(cs[0].0 == path);
                    assert(kids[j - 1].0.len() > path.len());
                }
            }
        },
        None => {
            assert forall|i: int, j: int| 0 <= i < j < cs.len() implies !((
            #[trigger] cs[j]).0.is_prefix_of((#[trigger] cs[i]).0) && cs[j].0.len()
                < cs[i].0.len()) by {
                assert(cs[i] == kids[i] && cs[j] == kids[j]);
            }
        },
    }
}

/// The child walk from `i` on is itself ancestor-first, and each of its
/// changes carries its child's index right after `path`.
proof fn lemma_diff_af_kids<V: Vertex>(a: V, b: V, path: Seq<usize>, i: int)
    requires
        0 <= i,
        bounded_width(a),
        bounded_width(b),
    ensures
        ancestor_first(diff_kids(a, b, path, i)),
        forall|j: int|
            0 <= j < diff_kids(a, b, path, i).len() ==> i <= (#[trigger] diff_kids(
                a,
                b,
                path,
                i,
            )[j]).0[path.len() as int],
    decreases a.rank(), (if a.spec_children().len() >= b.spec_children().len() {
        a.spec_children().len()
    } else {
        b.spec_children().len()
    }) - i,
{
    let olds = a.spec_children();
    let news = b.spec_children();
    let len: int = if olds.len() >= news.len() {
        olds.len() as int
    } else {
        news.len() as int
    };
    if i >= len {
        return ;
    }
    a.lemma_rank();
    let cs = diff_kids(a, b, path, i);
    let child = path.push(i as usize);
    let tail = diff_kids(a, b, path, i + 1);
    lemma_diff_af_kids(a, b, path, i + 1);
    lemma_diff_kids_prefix(a, b, path, i + 1);
    assert(((i as usize) as int) == i);
    assert(child.take(path.len() as int) =~= path);
    assert(child[path.len() as int] == i);
    let ghost headlen: int = if i < olds.len() && i < news.len() {
        diff_spec(olds[i], news[i], child).len() as int
    } else {
        1
    };
    if i < olds.len() && i < news.len() {
        lemma_diff_ancestor_first(olds[i], news[i], child);
        lemma_diff_prefix(olds[i], news[i], child);
    }
    assert forall|j: int| 0 <= j < cs.len() && j < headlen implies (#[trigger] cs[j]).0[path.len()
        as int] == i && path.len() < cs[j].0.len() by {
        if i < olds.len() && i < news.len() {
            let head = diff_spec(olds[i], news[i], child);
            assert(cs[j] == head[j]);
            assert(child.is_prefix_of(cs[j].0));
            assert(cs[j].0.take(child.len() as int) =~= child);
        } else {
            assert(cs[j].0 == child);
        }
    }
    assert forall|j: int| 0 <= j < cs.len() implies i <= (#[trigger] cs[j]).0[path.len()
        as int] by {
        if j >= headlen {
            assert(cs[j] == tail[j - headlen]);
        }
    }
    assert forall|i1: int, j1: int| 0 <= i1 < j1 < cs.len() implies !((
    #[trigger] cs[j1]).0.is_prefix_of((#[trigger] cs[i1]).0) && cs[j1].0.len()
        < cs[i1].0.len()) by {
        if j1 < headlen {
            if i < olds.len() && i < news.len() {
                let head = diff_spec(olds[i], news[i], child);
                assert(cs[i1] == head[i1] && cs[j1] == head[j1]);
            }
        } else if i1 >= headlen {
            assert(cs[i1] == tail[i1 - headlen] && cs[j1] == tail[j1 - headlen]);
        } else {
            // a later sibling's change carries a larger child index, so it
            // cannot be an ancestor of this block's change
            assert(cs[j1] == tail[j1 - headlen]);
            assert(cs[j1].0.len() > path.len());
            assert(i + 1 <= cs[j1].0[path.len() as int]);
            assert(cs[i1].0[path.len() as int] == i);
            if cs[j1].0.is_prefix_of(cs[i1].0) {
                assert(cs[i1].0.take(cs[j1].0.len() as int) =~= cs[j1].0);
            }
        }
    }
}


/// Every `Create` and `Update` path of the changeset resolves to a node
/// of the given tree.
pub open spec fn resolves_in<V: Vertex>(new: V, cs: Seq<(Seq<usize>, Operation)>) -> bool {
    forall|k: int|
        0 <= k < cs.len() && (#[trigger] cs[k]).1 != Operation::Remove ==> find_spec(
            new,
            cs[k].0,
        ) is Some
}

/// Law: every `Create` and `Update` the diff engine emits addresses a
/// valid node of the new tree; only `Remove` may address a node that no
/// longer exists.
pub proof fn lemma_diff_resolves<V: Vertex>(a: V, b: V)
    requires
        bounded_width(a),
        bounded_width(b),
    ensures
        resolves_in(b, diff_spec(a, b, Seq::<usize>::empty())),
{
    let cs = diff_spec(a, b, Seq::<usize>::empty());
    lemma_diff_resolves_at(a, b, Seq::<usize>::empty());
    assert forall|k: int|
        0 <= k < cs.len() && (#[trigger] cs[k]).1 != Operation::Remove implies find_spec(
        b,
        cs[k].0,
    ) is Some by {
        assert(cs[k].0.skip(0) =~= cs[k].0);
    }
}

/// Relative form: every non-`Remove` change of a subtree diff resolves in
/// the new subtree, once the shared path prefix is stripped.
proof fn lemma_diff_resolves_at<V: Vertex>(a: V, b: V, path: Seq<usize>)
    requires
        bounded_width(a),
        bounded_width(b),
    ensures
        forall|k: int|
            0 <= k < diff_spec(a, b, path).len() && (#[trigger] diff_spec(a, b, path)[k]).1
                != Operation::Remove ==> find_spec(
                b,
                diff_spec(a, b, path)[k].0.skip(path.len() as int),
            ) is Some,
    decreases a.rank(), 2 * a.spec_children().len() + 2 * b.spec_children().len() + 1,
{
    let cs = diff_spec(a, b, path);
    let kids = diff_kids(a, b, path, 0);
    lemma_diff_resolves_kids(a, b, path, 0);
    assert(Seq::<usize>::empty() =~= path.skip(path.len() as int));
    match a.spec_compare(&b) {
        Some(Difference::Kind) => {
            assert(find_spec(b, cs[0].0.skip(path.len() as int)) is Some);
        },
        Some(Difference::Value) => {
            assert forall|k: int|
                0 <= k < cs.len() && (#[trigger] cs[k]).1 != Operation::Remove implies find_spec(
                b,
                cs[k].0.skip(path.len() as int),
            ) is Some by {
                if k >= 1 {
                    assert(cs[k] == kids[k - 1]);
                }
            }
        },
        None => {
            assert forall|k: int|
                0 <= k < cs.len() && (#[trigger] cs[k]).1 != Operation::Remove implies find_spec(
                b,
                cs[k].0.skip(path.len() as int),
            ) is Some by {
                assert(cs[k] == kids[k]);
            }
        },
    }
}

/// The child walk's non-`Remove` changes resolve in the new tree, one
/// child step below the shared prefix.
proof fn lemma_diff_resolves_kids<V: Vertex>(a: V, b: V, path: Seq<usize>, i: int)
    requires
        0 <= i,
        bounded_width(a),
        bounded_width(b),
    ensures
        forall|k: int|
            0 <= k < diff_kids(a, b, path, i).len() && (#[trigger] diff_kids(a, b, path, i)[k]).1
                != Operation::Remove ==> find_spec(
                b,
                diff_kids(a, b, path, i)[k].0.skip(path.len() as int),
            ) is Some,
    decreases a.rank(), (if a.spec_children().len() >= b.spec_children().len() {
        a.spec_children().len()
    } else {
        b.spec_children().len()
    }) - i,
{
    let olds = a.spec_children();
    let news = b.spec_children();
    let len: int = if olds.len() >= news.len() {
        olds.len() as int
    } else {
        news.len() as int
    };
    if i >= len {
        return ;
    }
    a.lemma_rank();
    let cs = diff_kids(a, b, path, i);
    let child = path.push(i as usize);
    let tail = diff_kids(a, b, path, i + 1);
    lemma_diff_resolves_kids(a, b, path, i + 1);
    assert(((i as usize) as int) == i);
    assert(child.take(path.len() as int) =~= path);
    let ghost headlen: int = if i < olds.len() && i < news.len() {
        diff_spec(olds[i], news[i], child).len() as int
    } else {
        1
    };
    if i < olds.len() && i < news.len() {
        lemma_diff_resolves_at(olds[i], news[i], child);
        lemma_diff_prefix(olds[i], news[i], child);
    }
    assert forall|k: int|
        0 <= k < cs.len() && (#[trigger] cs[k]).1 != Operation::Remove implies find_spec(
        b,
        cs[k].0.skip(path.len() as int),
    ) is Some by {
        if k >= headlen {
            assert(cs[k] == tail[k - headlen]);
        } else if i < olds.len() && i < news.len() {
            let head = diff_spec(olds[i], news[i], child);
            assert(cs[k] == head[k]);
            assert(child.is_prefix_of(cs[k].0));
            assert(cs[k].0.take(child.len() as int) =~= child);
            let rel = cs[k].0.skip(path.len() as int);
            assert(child.len() == path.len() + 1);
            assert(cs[k].0.len() >= child.len());
            assert(cs[k].0[path.len() as int] == child[path.len() as int]);
            assert(child[path.len() as int] == i as usize);
            assert(rel[0] == cs[k].0[path.len() as int]);
            assert(rel.drop_first() =~= cs[k].0.skip(child.len() as int));
            assert(find_spec(news[i as int], cs[k].0.skip(child.len() as int)) is Some);
            assert(find_spec(b, rel) == find_spec(news[i as int], rel.drop_first()));
        } else {
            assert(i < news.len());
            assert(cs[k].0 == child);
            let rel = cs[k].0.skip(path.len() as int);
            assert(rel =~= seq![i as usize]);
            assert(rel.drop_first() =~= Seq::<usize>::empty());
            assert(find_spec(b, rel) == find_spec(news[i as int], rel.drop_first()));
        }
    }
}

} // verus!
