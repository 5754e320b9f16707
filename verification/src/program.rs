//! Patch/event translation and interaction handling: the pure core of the
//! control loop that drives diff, translate, send and command receipt.
//!
//! A changeset plus the new DOM tree becomes an ordered list of wire
//! [`Event`]s; an incoming interaction line becomes the message carried by
//! the clicked button, if any.

use vstd::prelude::*;

use crate::dom::{Attribute, Attributes, Kind, Message, Object, lemma_obj_bounded_width};
use crate::tree::{
    Change, Changeset, Operation, Path, ancestor_first, change_view, cs_view, find, find_spec,
    path_str,
};
use vstd::string::StrSliceExecFns;

verus! {

/// Wire-protocol unit sent to the renderer, one JSON line each: create a
/// widget, update one attribute of a widget, or remove a widget. The
/// identifier is the textual form of the widget's path.
#[derive(Debug)]
pub enum Event {
    Create { id: String, kind: String, text: String },
    Update(String, String, String),
    Remove(String),
}

/// An event before its path is turned into text: what the translator
/// decides, addressed by path.
pub enum PatchEvent {
    Create { at: Seq<usize>, kind: Kind, text: Seq<char> },
    Update { at: Seq<usize>, text: Seq<char> },
    Remove { at: Seq<usize> },
}

/// Mathematical value of a wire event.
pub enum EventModel {
    Create { id: Seq<char>, kind: Seq<char>, text: Seq<char> },
    Update(Seq<char>, Seq<char>, Seq<char>),
    Remove(Seq<char>),
}

pub open spec fn ev_view(e: Event) -> EventModel {
    match e {
        Event::Create { id, kind, text } => EventModel::Create {
            id: id@,
            kind: kind@,
            text: text@,
        },
        Event::Update(id, name, value) => EventModel::Update(id@, name@, value@),
        Event::Remove(id) => EventModel::Remove(id@),
    }
}

pub open spec fn evs_view(s: Seq<Event>) -> Seq<EventModel> {
    s.map_values(|e: Event| ev_view(e))
}

/// The name of a kind on the wire.
pub open spec fn kind_str(k: Kind) -> Seq<char> {
    match k {
        Kind::Stack => "Stack"@,
        Kind::Button => "Button"@,
        Kind::Label => "Label"@,
        Kind::Field => "Field"@,
    }
}

/// The value of the first text attribute, or the empty string.
pub open spec fn text_of<S>(attrs: Seq<Attribute<S>>) -> Seq<char>
    decreases attrs.len(),
{
    if attrs.len() == 0 {
        Seq::empty()
    } else {
        match attrs[0] {
            Attribute::Text(t) => t@,
            _ => text_of(attrs.drop_first()),
        }
    }
}

/// The wire form of a path-addressed event.
pub open spec fn wire_of(e: PatchEvent) -> EventModel {
    match e {
        PatchEvent::Create { at, kind, text } => EventModel::Create {
            id: path_str(at),
            kind: kind_str(kind),
            text,
        },
        PatchEvent::Update { at, text } => EventModel::Update(path_str(at), "Text"@, text),
        PatchEvent::Remove { at } => EventModel::Remove(path_str(at)),
    }
}

pub open spec fn wires(s: Seq<PatchEvent>) -> Seq<EventModel> {
    s.map_values(|e: PatchEvent| wire_of(e))
}

/// The recursive expansion of a created subtree: one `Create` per node,
/// each parent before its descendants, children in order.
pub open spec fn expand_spec<S>(path: Seq<usize>, node: Object<S>) -> Seq<PatchEvent>
    decreases node, 0int,
{
    seq![
        PatchEvent::Create { at: path, kind: node.kind, text: text_of(node.attributes@) },
    ] + expand_kids(path, node.children@, 0)
}

/// The expansions of the children from index `i` on.
pub open spec fn expand_kids<S>(path: Seq<usize>, kids: Seq<Object<S>>, i: int) -> Seq<PatchEvent>
    decreases kids, kids.len() - i,
{
    if i < 0 || i >= kids.len() {
        Seq::empty()
    } else {
        expand_spec(path.push(i as usize), kids[i]) + expand_kids(path, kids, i + 1)
    }
}

/// What translating one change yields: the events it becomes, and the
/// change itself where it is unsupported and must be skipped. An `Update`
/// has a wire mapping only for label text; a change whose path does not
/// resolve in the new tree is skipped rather than translated.
pub open spec fn convert_step<S: Message>(dom: Object<S>, c: (Seq<usize>, Operation)) -> (
    Seq<PatchEvent>,
    Seq<(Seq<usize>, Operation)>,
) {
    match c.1 {
        Operation::Create => match find_spec(dom, c.0) {
            Some(n) => (expand_spec(c.0, n), Seq::empty()),
            None => (Seq::empty(), seq![c]),
        },
        Operation::Update => match find_spec(dom, c.0) {
            Some(n) => if n.kind == Kind::Label {
                (seq![PatchEvent::Update { at: c.0, text: text_of(n.attributes@) }], Seq::empty())
            } else {
                (Seq::empty(), seq![c])
            },
            None => (Seq::empty(), seq![c]),
        },
        Operation::Remove => (seq![PatchEvent::Remove { at: c.0 }], Seq::empty()),
    }
}

/// What translating a whole changeset yields, change by change, in order:
/// the events, and the skipped unsupported changes.
pub open spec fn convert_spec<S: Message>(dom: Object<S>, cs: Seq<(Seq<usize>, Operation)>) -> (
    Seq<PatchEvent>,
    Seq<(Seq<usize>, Operation)>,
)
    decreases cs.len(),
{
    if cs.len() == 0 {
        (Seq::empty(), Seq::empty())
    } else {
        let head = convert_step(dom, cs[0]);
        let rest = convert_spec(dom, cs.drop_first());
        (head.0 + rest.0, head.1 + rest.1)
    }
}

/// The wire name of a kind.
pub fn kind_name(k: Kind) -> (r: String)
    ensures
        r@ == kind_str(k),
{
    match k {
        Kind::Stack => "Stack".to_owned(),
        Kind::Button => "Button".to_owned(),
        Kind::Label => "Label".to_owned(),
        Kind::Field => "Field".to_owned(),
    }
}

/// The value of the first text attribute, or the empty string.
pub fn node_text<S: Message>(attrs: &Attributes<S>) -> (r: String)
    ensures
        r@ == text_of(attrs@),
{
    let mut i: usize = 0;
    proof {
        assert(attrs@.skip(0) =~= attrs@);
    }
    while i < attrs.len()
        invariant
            i <= attrs.len(),
            text_of(attrs@) == text_of(attrs@.skip(i as int)),
        decreases attrs.len() - i,
    {
        proof {
            assert(attrs@.skip(i as int)[0] == attrs@[i as int]);
            assert(attrs@.skip(i as int).drop_first() =~= attrs@.skip(i as int + 1));
        }
        match &attrs[i] {
            Attribute::Text(t) => {
                return t.clone();
            },
            _ => {
            },
        }
        i += 1;
    }
    proof {
        assert(text_of(attrs@.skip(attrs@.len() as int)) =~= Seq::<char>::empty());
    }
    String::new()
}

/// Expand the subtree rooted at `node`, addressed by `path`, into one
/// `Create` event per node, parent first, appending to `events`.
pub fn expand<S: Message>(path: &Path, node: &Object<S>, events: &mut Vec<Event>)
    ensures
        evs_view(final(events)@) == evs_view(old(events)@) + wires(expand_spec(path@, *node)),
    decreases *node,
{
    let ghost pre = events@;
    let id = path.to_string();
    let kind = kind_name(node.kind);
    let text = node_text(&node.attributes);
    events.push(Event::Create { id, kind, text });
    proof {
        assert(evs_view(events@) + wires(expand_kids(path@, node.children@, 0)) =~= evs_view(pre)
            + wires(expand_spec(path@, *node)));
    }
    let mut i: usize = 0;
    while i < node.children.len()
        invariant
            i <= node.children.len(),
            evs_view(events@) + wires(expand_kids(path@, node.children@, i as int)) == evs_view(pre)
                + wires(expand_spec(path@, *node)),
        decreases node.children.len() - i,
    {
        let ghost mid = events@;
        let kid_path = path.child(i);
        expand(&kid_path, &node.children[i], events);
        proof {
            assert(((i as int) as usize) == i);
            assert(expand_kids(path@, node.children@, i as int) =~= expand_spec(
                path@.push(i),
                node.children@[i as int],
            ) + expand_kids(path@, node.children@, i as int + 1));
            assert(evs_view(events@) =~= evs_view(mid) + wires(expand_spec(
                path@.push(i),
                node.children@[i as int],
            )));
            assert(evs_view(events@) + wires(expand_kids(path@, node.children@, i as int + 1))
                =~= evs_view(mid) + wires(expand_kids(path@, node.children@, i as int)));
        }
        i += 1;
    }
    proof {
        assert(expand_kids(path@, node.children@, node.children@.len() as int) =~= Seq::<
            PatchEvent,
        >::empty());
        assert(evs_view(events@) =~= evs_view(pre) + wires(expand_spec(path@, *node)));
    }
}

/// Convert a changeset plus the new DOM tree to the ordered list of wire
/// events, in changeset order; unsupported or unresolvable changes are
/// skipped and returned beside the events.
pub fn convert<S: Message>(dom: &Object<S>, set: Changeset) -> (r: (Vec<Event>, Vec<Change>))
    ensures
        evs_view(r.0@) == wires(convert_spec(*dom, cs_view(set@)).0),
        cs_view(r.1@) == convert_spec(*dom, cs_view(set@)).1,
{
    let ghost csv = cs_view(set@);
    let mut events: Vec<Event> = Vec::new();
    let mut skipped: Vec<Change> = Vec::new();
    let mut k: usize = 0;
    proof {
        assert(csv.skip(0) =~= csv);
    }
    while k < set.len()
        invariant
            k <= set.len(),
            csv == cs_view(set@),
            csv.len() == set@.len(),
            evs_view(events@) + wires(convert_spec(*dom, csv.skip(k as int)).0) == wires(
                convert_spec(*dom, csv).0,
            ),
            cs_view(skipped@) + convert_spec(*dom, csv.skip(k as int)).1 == convert_spec(
                *dom,
                csv,
            ).1,
        decreases set.len() - k,
    {
        let ghost mide = events@;
        let ghost mids = skipped@;
        let ghost c = csv[k as int];
        proof {
            assert(csv.skip(k as int)[0] == csv[k as int]);
            assert(csv.skip(k as int).drop_first() =~= csv.skip(k as int + 1));
            assert(convert_spec(*dom, csv.skip(k as int)).0 =~= convert_step(*dom, c).0
                + convert_spec(*dom, csv.skip(k as int + 1)).0);
            assert(convert_spec(*dom, csv.skip(k as int)).1 =~= convert_step(*dom, c).1
                + convert_spec(*dom, csv.skip(k as int + 1)).1);
            assert(c == change_view(set@[k as int]));
        }
        let p = &set[k].0;
        let op = set[k].1;
        match op {
            Operation::Create => {
                match find(dom, p) {
                    Some(n) => {
                        expand(p, n, &mut events);
                        proof {
                            assert(convert_step(*dom, c).0 =~= expand_spec(p@, *n));
                            assert(evs_view(events@) =~= evs_view(mide) + wires(
                                convert_step(*dom, c).0,
                            ));
                            assert(cs_view(skipped@) =~= cs_view(mids) + convert_step(*dom, c).1);
                        }
                    },
                    None => {
                        skipped.push((p.duplicate(), Operation::Create));
                        proof {
                            assert(cs_view(skipped@) =~= cs_view(mids) + convert_step(*dom, c).1);
                            assert(evs_view(events@) =~= evs_view(mide) + wires(
                                convert_step(*dom, c).0,
                            ));
                        }
                    },
                }
            },
            Operation::Update => {
                match find(dom, p) {
                    Some(n) => {
                        if n.kind == Kind::Label {
                            events.push(
                                Event::Update(p.to_string(), "Text".to_owned(), node_text(&n.attributes)),
                            );
                            proof {
                                assert(convert_step(*dom, c).0 =~= seq![
                                    PatchEvent::Update { at: p@, text: text_of(n.attributes@) },
                                ]);
                                assert(evs_view(events@) =~= evs_view(mide) + wires(
                                    convert_step(*dom, c).0,
                                ));
                                assert(cs_view(skipped@) =~= cs_view(mids) + convert_step(
                                    *dom,
                                    c,
                                ).1);
                            }
                        } else {
                            skipped.push((p.duplicate(), Operation::Update));
                            proof {
                                assert(cs_view(skipped@) =~= cs_view(mids) + convert_step(
                                    *dom,
                                    c,
                                ).1);
                                assert(evs_view(events@) =~= evs_view(mide) + wires(
                                    convert_step(*dom, c).0,
                                ));
                            }
                        }
                    },
                    None => {
                        skipped.push((p.duplicate(), Operation::Update));
                        proof {
                            assert(cs_view(skipped@) =~= cs_view(mids) + convert_step(*dom, c).1);
                            assert(evs_view(events@) =~= evs_view(mide) + wires(
                                convert_step(*dom, c).0,
                            ));
                        }
                    },
                }
            },
            Operation::Remove => {
                events.push(Event::Remove(p.to_string()));
                proof {
                    assert(convert_step(*dom, c).0 =~= seq![PatchEvent::Remove { at: p@ }]);
                    assert(evs_view(events@) =~= evs_view(mide) + wires(convert_step(*dom, c).0));
                    assert(cs_view(skipped@) =~= cs_view(mids) + convert_step(*dom, c).1);
                }
            },
        }
        proof {
            assert(evs_view(events@) + wires(convert_spec(*dom, csv.skip(k as int + 1)).0)
                =~= wires(convert_spec(*dom, csv).0));
            assert(cs_view(skipped@) + convert_spec(*dom, csv.skip(k as int + 1)).1
                =~= convert_spec(*dom, csv).1);
        }
        k += 1;
    }
    proof {
        assert(csv.skip(csv.len() as int) =~= Seq::<(Seq<usize>, Operation)>::empty());
        assert(evs_view(events@) =~= wires(convert_spec(*dom, csv).0));
        assert(cs_view(skipped@) =~= convert_spec(*dom, csv).1);
    }
    (events, skipped)
}

/// The changeset that renders a whole first tree: a single `Create` at
/// the root path.
pub fn initial_changeset() -> (r: Changeset)
    ensures
        cs_view(r@) == seq![(Seq::<usize>::empty(), Operation::Create)],
{
    let mut r: Changeset = Vec::new();
    r.push((Path::new(), Operation::Create));
    proof {
        assert(cs_view(r@) =~= seq![(Seq::<usize>::empty(), Operation::Create)]);
    }
    r
}


/// A malformed incoming line: a truncated command, an index that is not a
/// decimal number, or one too large to address a child. Recoverable: the
/// line is dropped and the loop continues.
#[derive(Clone, Copy, Debug, PartialEq, Eq, Structural)]
pub struct ProtocolError;

/// A decimal digit character.
pub open spec fn is_digit(c: char) -> bool {
    48 <= c as u32 <= 57
}

/// The value of one decimal digit character.
pub open spec fn digit_val(c: char) -> nat {
    (c as u32 - 48) as nat
}

/// The number the decimal digits of `t` denote, most significant first.
pub open spec fn digits_val(t: Seq<char>) -> nat
    decreases t.len(),
{
    if t.len() == 0 {
        0
    } else {
        digits_val(t.drop_last()) * 10 + digit_val(t.last())
    }
}

/// The segments of `s` between dots, in order; one more segment than
/// there are dots.
pub open spec fn split_dots(s: Seq<char>) -> Seq<Seq<char>>
    decreases s.len(),
{
    if s.len() == 0 {
        seq![Seq::<char>::empty()]
    } else {
        let rest = split_dots(s.drop_first());
        if s[0] == '.' {
            seq![Seq::<char>::empty()] + rest
        } else {
            seq![seq![s[0]] + rest[0]] + rest.drop_first()
        }
    }
}

/// A well-formed index segment: nonempty, all decimal digits, and small
/// enough to be a child index.
pub open spec fn index_ok(t: Seq<char>) -> bool {
    &&& t.len() > 0
    &&& forall|i: int| 0 <= i < t.len() ==> is_digit(#[trigger] t[i])
    &&& digits_val(t) <= usize::MAX
}

/// A well-formed incoming line: every segment after the command parses as
/// an index.
pub open spec fn line_ok(s: Seq<char>) -> bool {
    forall|k: int| 1 <= k < split_dots(s).len() ==> index_ok(#[trigger] split_dots(s)[k])
}

/// The command part of a line: everything before the first dot.
pub open spec fn command_of(s: Seq<char>) -> Seq<char> {
    split_dots(s)[0]
}

/// The path part of a line: the indices after the command.
pub open spec fn path_of(s: Seq<char>) -> Seq<usize> {
    Seq::new((split_dots(s).len() - 1) as nat, |k: int| digits_val(split_dots(s)[k + 1]) as usize)
}

/// Every segment of `t` parses as an index (used for the remainder of a
/// line after the command).
pub open spec fn segs_ok(t: Seq<char>) -> bool {
    forall|k: int| 0 <= k < split_dots(t).len() ==> index_ok(#[trigger] split_dots(t)[k])
}

/// The indices the segments of `t` denote.
pub open spec fn seg_vals(t: Seq<char>) -> Seq<usize> {
    Seq::new(split_dots(t).len(), |k: int| digits_val(split_dots(t)[k]) as usize)
}

/// Splitting after the segment boundary at `d`: the first segment is
/// everything before `d`, the rest splits the remainder.
proof fn lemma_split_head(s: Seq<char>, d: int)
    requires
        0 <= d <= s.len(),
        forall|i: int| 0 <= i < d ==> s[i] != '.',
        d < s.len() ==> s[d] == '.',
    ensures
        d == s.len() ==> split_dots(s) == seq![s],
        d < s.len() ==> split_dots(s) == seq![s.take(d)] + split_dots(s.skip(d + 1)),
    decreases s.len(),
{
    if s.len() == 0 {
        assert(s =~= Seq::<char>::empty());
        assert(split_dots(s) =~= seq![s]);
    } else if s[0] == '.' {
        assert(d == 0);
        assert(s.take(0) =~= Seq::<char>::empty());
        assert(s.skip(1) =~= s.drop_first());
        assert(split_dots(s) =~= seq![s.take(0)] + split_dots(s.skip(1)));
    } else {
        let t = s.drop_first();
        assert(d >= 1);
        lemma_split_head(t, d - 1);
        if d == s.len() {
            assert(split_dots(t) == seq![t]);
            assert(seq![s[0]] + split_dots(t)[0] =~= s);
            assert(split_dots(t).drop_first() =~= Seq::<Seq<char>>::empty());
            assert(split_dots(s) =~= seq![s]);
        } else {
            assert(split_dots(t) == seq![t.take(d - 1)] + split_dots(t.skip(d)));
            assert(split_dots(t)[0] == t.take(d - 1));
            assert(seq![s[0]] + t.take(d - 1) =~= s.take(d));
            assert(split_dots(t).drop_first() =~= split_dots(t.skip(d)));
            assert(t.skip(d) =~= s.skip(d + 1));
            assert(split_dots(s) =~= seq![s.take(d)] + split_dots(s.skip(d + 1)));
        }
    }
}

/// While no dot has been seen through position `j`, the first segment
/// extends at least that far and agrees with the line.
proof fn lemma_first_seg(t: Seq<char>, j: int)
    requires
        0 <= j <= t.len(),
        forall|i: int| 0 <= i < j ==> t[i] != '.',
    ensures
        split_dots(t)[0].len() >= j,
        forall|i: int| 0 <= i < j ==> split_dots(t)[0][i] == t[i],
    decreases j,
{
    if j > 0 {
        let r = t.drop_first();
        lemma_first_seg(r, j - 1);
        assert(t[0] != '.');
        assert(split_dots(t)[0] == seq![t[0]] + split_dots(r)[0]);
        assert forall|i: int| 0 <= i < j implies split_dots(t)[0][i] == t[i] by {
            if i > 0 {
                assert(split_dots(t)[0][i] == split_dots(r)[0][i - 1]);
                assert(r[i - 1] == t[i]);
            }
        }
    }
}

/// The value a digit prefix denotes never exceeds the whole's value.
proof fn lemma_digits_val_prefix(t: Seq<char>, j: int)
    requires
        0 <= j <= t.len(),
    ensures
        digits_val(t.take(j)) <= digits_val(t),
    decreases t.len() - j,
{
    if j == t.len() {
        assert(t.take(j) =~= t);
    } else {
        lemma_digits_val_prefix(t, j + 1);
        assert(t.take(j + 1).drop_last() =~= t.take(j));
        assert(digits_val(t.take(j + 1)) == digits_val(t.take(j)) * 10 + digit_val(t.take(j + 1).last()));
    }
}

/// Parse the dot-separated indices of `line` from `start` on; `Err` if
/// and only if some segment is empty, has a non-digit, or overflows.
fn parse_indices(line: &str, start: usize) -> (r: Result<Vec<usize>, ProtocolError>)
    requires
        start <= line@.len(),
    ensures
        (r is Ok) <==> segs_ok(line@.skip(start as int)),
        r is Ok ==> r->Ok_0@ == seg_vals(line@.skip(start as int)),
    decreases line@.len() - start,
{
    let ghost t = line@.skip(start as int);
    let n = line.unicode_len();
    let mut j: usize = start;
    let mut value: usize = 0;
    loop
        invariant
            start <= j <= n,
            n == line@.len(),
            start <= line@.len(),
            t == line@.skip(start as int),
            forall|i: int| start <= i < j ==> line@[i] != '.',
            forall|i: int| start <= i < j ==> is_digit(#[trigger] line@[i]),
            value == digits_val(t.take(j - start)),
        ensures
            start <= j <= n,
            n == line@.len(),
            forall|i: int| start <= i < j ==> line@[i] != '.',
            forall|i: int| start <= i < j ==> is_digit(#[trigger] line@[i]),
            value == digits_val(t.take(j - start)),
            j == n || line@[j as int] == '.',
        decreases n - j,
    {
        if j == n {
            break ;
        }
        let c = line.get_char(j);
        if c == '.' {
            break ;
        }
        let u = c as u32;
        proof {
            assert(t[j - start] == line@[j as int]);
        }
        if u < 48 || u > 57 {
            proof {
                lemma_first_seg(t, j - start + 1);
                assert(split_dots(t)[0].len() > j - start);
                assert(split_dots(t)[0][j - start] == t[j - start]);
                assert(!is_digit(split_dots(t)[0][j - start]));
                assert(!index_ok(split_dots(t)[0]));
                assert(!segs_ok(t));
            }
            return Err(ProtocolError);
        }
        let d = (u - 48) as usize;
        if value > (usize::MAX - d) / 10 {
            proof {
                assert(value * 10 + d > usize::MAX) by (nonlinear_arith)
                    requires
                        value > (usize::MAX - d) / 10,
                        d <= 9,
                ;
                assert(c as u32 >= 48);
                assert('.' as u32 == 46);
                assert(t[j - start] != '.');
                lemma_first_seg(t, j - start + 1);
                let seg = split_dots(t)[0];
                assert(seg.len() >= j - start + 1);
                assert(t.take(j - start + 1).drop_last() =~= t.take(j - start));
                assert(digits_val(t.take(j - start + 1)) == value * 10 + digit_val(
                    t[j - start],
                ));
                assert(seg.take(j - start + 1) =~= t.take(j - start + 1)) by {
                    assert(forall|i: int|
                        0 <= i < j - start + 1 ==> seg[i] == #[trigger] t[i]) by {
                        lemma_first_seg(t, j - start + 1);
                    }
                    lemma_first_seg(t, j - start + 1);
                }
                lemma_digits_val_prefix(seg, j - start + 1);
                assert(digits_val(seg) > usize::MAX);
                assert(!index_ok(seg));
                assert(!segs_ok(t));
            }
            return Err(ProtocolError);
        }
        value = value * 10 + d;
        proof {
            assert(t.take(j - start + 1).drop_last() =~= t.take(j - start));
            assert(digit_val(t[j - start]) == d);
            assert(value == digits_val(t.take(j - start + 1)));
        }
        j += 1;
    }
    // the segment runs from start to j: empty, last, or followed by more
    proof {
        lemma_split_head(t, j - start);
    }
    if j == start {
        proof {
            if j == n {
                assert(split_dots(t)[0] =~= t);
                assert(!index_ok(split_dots(t)[0]));
            } else {
                assert(line@[j as int] == '.');
                assert(t[0] == '.');
                assert(split_dots(t)[0] == t.take(0));
                assert(!index_ok(split_dots(t)[0]));
            }
            assert(!segs_ok(t));
        }
        return Err(ProtocolError);
    }
    if j == n {
        proof {
            assert(t.take(j - start) =~= t);
            assert(split_dots(t) == seq![t]);
            assert(index_ok(t));
            assert(segs_ok(t));
        }
        let mut out: Vec<usize> = Vec::new();
        out.push(value);
        proof {
            assert(out@ =~= seg_vals(t));
        }
        return Ok(out);
    }
    let ghost seg = t.take(j - start);
    proof {
        assert(line@[j as int] == '.');
        assert(t[j - start] == '.');
        assert(split_dots(t) == seq![seg] + split_dots(t.skip(j - start + 1)));
        assert(t.skip(j - start + 1) =~= line@.skip(j as int + 1));
        assert(index_ok(seg));
    }
    match parse_indices(line, j + 1) {
        Err(e) => {
            proof {
                let t2 = line@.skip(j as int + 1);
                assert(!segs_ok(t2));
                let bad = choose|k: int|
                    0 <= k < split_dots(t2).len() && !index_ok(#[trigger] split_dots(t2)[k]);
                assert(split_dots(t)[bad + 1] == split_dots(t2)[bad]);
                assert(!segs_ok(t));
            }
            Err(e)
        },
        Ok(rest) => {
            let mut out: Vec<usize> = Vec::new();
            out.push(value);
            let mut rest = rest;
            let ghost restv = rest@;
            out.append(&mut rest);
            proof {
                let t2 = line@.skip(j as int + 1);
                assert forall|k: int| 0 <= k < split_dots(t).len() implies index_ok(
                    #[trigger] split_dots(t)[k],
                ) by {
                    if k >= 1 {
                        assert(split_dots(t)[k] == split_dots(t2)[k - 1]);
                    }
                }
                assert(out@ =~= seg_vals(t));
            }
            Ok(out)
        },
    }
}

/// Parse one incoming interaction line, `command.idx.idx...`: the command
/// is everything before the first dot, the indices form a path. `Err` if
/// and only if some index fails to parse.
pub fn parse_line(line: &str) -> (r: Result<(String, Path), ProtocolError>)
    ensures
        (r is Ok) <==> line_ok(line@),
        r is Ok ==> r->Ok_0.0@ == command_of(line@),
        r is Ok ==> r->Ok_0.1@ == path_of(line@),
{
    let n = line.unicode_len();
    let mut j: usize = 0;
    loop
        invariant
            0 <= j <= n,
            n == line@.len(),
            forall|i: int| 0 <= i < j ==> line@[i] != '.',
        ensures
            0 <= j <= n,
            n == line@.len(),
            forall|i: int| 0 <= i < j ==> line@[i] != '.',
            j == n || line@[j as int] == '.',
        decreases n - j,
    {
        if j == n {
            break ;
        }
        if line.get_char(j) == '.' {
            break ;
        }
        j += 1;
    }
    let cmd = line.substring_char(0, j).to_owned();
    proof {
        lemma_split_head(line@, j as int);
    }
    if j == n {
        proof {
            assert(line@.take(j as int) =~= line@);
            assert(split_dots(line@) == seq![line@]);
            assert(line_ok(line@));
            assert(path_of(line@) =~= Seq::<usize>::empty());
        }
        Ok((cmd, Path::new()))
    } else {
        let ghost t2 = line@.skip(j as int + 1);
        proof {
            assert(split_dots(line@) == seq![line@.take(j as int)] + split_dots(t2));
        }
        match parse_indices(line, j + 1) {
            Err(e) => {
                proof {
                    let bad = choose|k: int|
                        0 <= k < split_dots(t2).len() && !index_ok(#[trigger] split_dots(t2)[k]);
                    assert(split_dots(line@)[bad + 1] == split_dots(t2)[bad]);
                    assert(!line_ok(line@));
                }
                Err(e)
            },
            Ok(v) => {
                proof {
                    assert forall|k: int| 1 <= k < split_dots(line@).len() implies index_ok(
                        #[trigger] split_dots(line@)[k],
                    ) by {
                        assert(split_dots(line@)[k] == split_dots(t2)[k - 1]);
                    }
                    assert(v@ =~= path_of(line@));
                }
                Ok((cmd, Path::from_vec(v)))
            },
        }
    }
}

/// The message of the first click attribute, if any.
pub open spec fn click_of<S>(attrs: Seq<Attribute<S>>) -> Option<S>
    decreases attrs.len(),
{
    if attrs.len() == 0 {
        None
    } else {
        match attrs[0] {
            Attribute::Click(m) => Some(m),
            _ => click_of(attrs.drop_first()),
        }
    }
}

/// The message a click at `path` resolves to: the click payload of the
/// button there, if the path leads to a button carrying one.
pub open spec fn button_click<S: Message>(dom: Object<S>, path: Seq<usize>) -> Option<S> {
    match find_spec(dom, path) {
        Some(n) => if n.kind == Kind::Button {
            click_of(n.attributes@)
        } else {
            None
        },
        None => None,
    }
}

/// The message an incoming line resolves to: only a `click` command on a
/// button carrying a click attribute yields one.
pub open spec fn resolve_spec<S: Message>(
    dom: Object<S>,
    cmd: Seq<char>,
    path: Seq<usize>,
) -> Option<S> {
    if cmd == "click"@ {
        button_click(dom, path)
    } else {
        None
    }
}

fn first_click<S: Message>(attrs: &Attributes<S>) -> (r: Option<S>)
    ensures
        r == click_of(attrs@),
{
    let mut i: usize = 0;
    proof {
        assert(attrs@.skip(0) =~= attrs@);
    }
    while i < attrs.len()
        invariant
            i <= attrs.len(),
            click_of(attrs@) == click_of(attrs@.skip(i as int)),
        decreases attrs.len() - i,
    {
        proof {
            assert(attrs@.skip(i as int)[0] == attrs@[i as int]);
            assert(attrs@.skip(i as int).drop_first() =~= attrs@.skip(i as int + 1));
        }
        match &attrs[i] {
            Attribute::Click(m) => {
                return Some(m.dup());
            },
            _ => {
            },
        }
        i += 1;
    }
    proof {
        assert(click_of(attrs@.skip(attrs@.len() as int)) == None::<S>);
    }
    None
}

/// The message a click at `path` resolves to in `dom`.
pub fn resolve_click<S: Message>(dom: &Object<S>, path: &Path) -> (r: Option<S>)
    ensures
        r == button_click(*dom, path@),
{
    match find(dom, path) {
        Some(n) => {
            if n.kind == Kind::Button {
                first_click(&n.attributes)
            } else {
                None
            }
        },
        None => None,
    }
}

/// Handle one incoming line against the current tree: a malformed line is
/// a recoverable protocol error; a well-formed one resolves to the clicked
/// button's message, or to none for any other command or target.
pub fn handle_line<S: Message>(dom: &Object<S>, line: &str) -> (r: Result<
    Option<S>,
    ProtocolError,
>)
    ensures
        (r is Ok) <==> line_ok(line@),
        r is Ok ==> r->Ok_0 == resolve_spec(*dom, command_of(line@), path_of(line@)),
{
    match parse_line(line) {
        Err(e) => Err(e),
        Ok((cmd, path)) => {
            let click_cmd: String = "click".to_owned();
            if cmd == click_cmd {
                Ok(resolve_click(dom, &path))
            } else {
                Ok(None)
            }
        },
    }
}


/// The path an expansion event addresses.
pub open spec fn at_of(e: PatchEvent) -> Seq<usize> {
    match e {
        PatchEvent::Create { at, kind, text } => at,
        PatchEvent::Update { at, text } => at,
        PatchEvent::Remove { at } => at,
    }
}

/// Whether an event creates a widget.
pub open spec fn is_create(e: PatchEvent) -> bool {
    e is Create
}

/// Law: expanding a created subtree emits a valid pre-order: the root's
/// `Create` comes first, every event is a `Create` under the root path,
/// and every other event's parent `Create` appears earlier in the
/// expansion, so the renderer always knows a parent before its children.
pub proof fn lemma_expand_preorder<S>(path: Seq<usize>, node: Object<S>)
    ensures
        expand_spec(path, node).len() >= 1,
        at_of(expand_spec(path, node)[0]) == path,
        forall|j: int|
            0 <= j < expand_spec(path, node).len() ==> is_create(#[trigger] expand_spec(path, node)[j]),
        forall|j: int|
            0 <= j < expand_spec(path, node).len() ==> path.is_prefix_of(
                at_of(#[trigger] expand_spec(path, node)[j]),
            ),
        forall|j: int|
            1 <= j < expand_spec(path, node).len() ==> exists|k: int|
                0 <= k < j && #[trigger] at_of(expand_spec(path, node)[k]) == at_of(
                    #[trigger] expand_spec(path, node)[j],
                ).drop_last(),
    decreases node, 0int,
{
    let evs = expand_spec(path, node);
    let kids = expand_kids(path, node.children@, 0);
    lemma_expand_kids_preorder(path, node.children@, 0);
    assert(path.is_prefix_of(path)) by {
        assert(path.take(path.len() as int) =~= path);
    }
    assert forall|j: int| 1 <= j < evs.len() implies exists|k: int|
        0 <= k < j && #[trigger] at_of(evs[k]) == at_of(#[trigger] evs[j]).drop_last() by {
        assert(evs[j] == kids[j - 1]);
        if at_of(kids[j - 1]).drop_last() == path {
            assert(at_of(evs[0]) == at_of(evs[j]).drop_last());
        } else {
            let k0 = choose|k0: int|
                0 <= k0 < j - 1 && #[trigger] at_of(kids[k0]) == at_of(kids[j - 1]).drop_last();
            assert(evs[k0 + 1] == kids[k0]);
            assert(at_of(evs[k0 + 1]) == at_of(evs[j]).drop_last());
        }
    }
    assert forall|j: int| 0 <= j < evs.len() implies path.is_prefix_of(
        at_of(#[trigger] evs[j]),
    ) by {
        if j >= 1 {
            assert(evs[j] == kids[j - 1]);
        }
    }
}

/// The expansions of the children from `i` on form pre-orders themselves,
/// and every event in them sits strictly under `path`, its parent either
/// `path` itself or an earlier event of the same walk.
proof fn lemma_expand_kids_preorder<S>(path: Seq<usize>, objs: Seq<Object<S>>, i: int)
    requires
        0 <= i,
    ensures
        forall|j: int|
            0 <= j < expand_kids(path, objs, i).len() ==> is_create(
                #[trigger] expand_kids(path, objs, i)[j],
            ),
        forall|j: int|
            0 <= j < expand_kids(path, objs, i).len() ==> path.is_prefix_of(
                at_of(#[trigger] expand_kids(path, objs, i)[j]),
            ) && at_of(expand_kids(path, objs, i)[j]).len() > path.len(),
        forall|j: int|
            0 <= j < expand_kids(path, objs, i).len() ==> (at_of(
                #[trigger] expand_kids(path, objs, i)[j],
            ).drop_last() == path || exists|k: int|
                0 <= k < j && #[trigger] at_of(expand_kids(path, objs, i)[k]) == at_of(
                    expand_kids(path, objs, i)[j],
                ).drop_last()),
    decreases objs, objs.len() - i,
{
    if i >= objs.len() {
        return ;
    }
    let evs = expand_kids(path, objs, i);
    let child = path.push(i as usize);
    let head = expand_spec(child, objs[i]);
    let tail = expand_kids(path, objs, i + 1);
    lemma_expand_preorder(child, objs[i]);
    lemma_expand_kids_preorder(path, objs, i + 1);
    assert(child.drop_last() =~= path);
    assert forall|j: int| 0 <= j < evs.len() implies is_create(#[trigger] evs[j]) by {
        if j < head.len() {
            assert(evs[j] == head[j]);
        } else {
            assert(evs[j] == tail[j - head.len()]);
        }
    }
    assert forall|j: int| 0 <= j < evs.len() implies path.is_prefix_of(at_of(#[trigger] evs[j]))
        && at_of(evs[j]).len() > path.len() by {
        if j < head.len() {
            assert(evs[j] == head[j]);
            assert(child.is_prefix_of(at_of(head[j])));
            assert(at_of(evs[j]).take(path.len() as int) =~= path);
        } else {
            assert(evs[j] == tail[j - head.len()]);
        }
    }
    assert forall|j: int| 0 <= j < evs.len() implies (at_of(#[trigger] evs[j]).drop_last() == path
        || exists|k: int|
        0 <= k < j && #[trigger] at_of(evs[k]) == at_of(evs[j]).drop_last()) by {
        if j < head.len() {
            assert(evs[j] == head[j]);
            if j == 0 {
                assert(at_of(evs[0]) == child);
                assert(at_of(evs[0]).drop_last() == path);
            } else {
                let k0 = choose|k0: int|
                    0 <= k0 < j && #[trigger] at_of(head[k0]) == at_of(head[j]).drop_last();
                assert(evs[k0] == head[k0]);
                assert(at_of(evs[k0]) == at_of(evs[j]).drop_last());
            }
        } else {
            let j0 = j - head.len();
            assert(evs[j] == tail[j0]);
            if at_of(tail[j0]).drop_last() == path {
            } else {
                let k0 = choose|k0: int|
                    0 <= k0 < j0 && #[trigger] at_of(tail[k0]) == at_of(tail[j0]).drop_last();
                assert(evs[head.len() + k0] == tail[k0]);
                assert(at_of(evs[head.len() + k0]) == at_of(evs[j]).drop_last());
            }
        }
    }
}


/// Within one expansion, every ancestor of an emitted path, down to the
/// expansion root, is itself emitted earlier.
proof fn lemma_expand_contains_ancestors<S>(root: Seq<usize>, node: Object<S>, j: int, p: Seq<usize>)
    requires
        0 <= j < expand_spec(root, node).len(),
        root.is_prefix_of(p),
        p.is_prefix_of(at_of(expand_spec(root, node)[j])),
        p.len() < at_of(expand_spec(root, node)[j]).len(),
    ensures
        exists|k: int|
            0 <= k < j && #[trigger] at_of(expand_spec(root, node)[k]) == p,
    decreases j,
{
    let evs = expand_spec(root, node);
    lemma_expand_preorder(root, node);
    let q = at_of(evs[j]);
    assert(j >= 1) by {
        if j == 0 {
            assert(at_of(evs[0]) == root);
            assert(p.len() >= root.len());
            assert(p.len() < root.len());
        }
    }
    let k1 = choose|k1: int| 0 <= k1 < j && #[trigger] at_of(evs[k1]) == q.drop_last();
    if q.drop_last() == p {
        assert(at_of(evs[k1]) == p);
    } else {
        assert(p.is_prefix_of(q.drop_last())) by {
            assert(p.len() < q.drop_last().len() || p.len() == q.drop_last().len());
            assert(q.drop_last().take(p.len() as int) =~= q.take(p.len() as int));
            if p.len() == q.drop_last().len() {
                assert(q.drop_last().take(p.len() as int) =~= q.drop_last());
                assert(q.drop_last() == p);
            }
        }
        assert(p.len() < at_of(evs[k1]).len());
        lemma_expand_contains_ancestors(root, node, k1, p);
        let k2 = choose|k2: int| 0 <= k2 < k1 && #[trigger] at_of(evs[k2]) == p;
        assert(0 <= k2 < j && at_of(evs[k2]) == p);
    }
}

/// Every `Create` event the translator emits stems from a `Create` change
/// whose path is a prefix of the event's path.
proof fn lemma_convert_create_origin<S: Message>(
    dom: Object<S>,
    cs: Seq<(Seq<usize>, Operation)>,
    j: int,
)
    requires
        0 <= j < convert_spec(dom, cs).0.len(),
        is_create(convert_spec(dom, cs).0[j]),
    ensures
        exists|m: int|
            0 <= m < cs.len() && (#[trigger] cs[m]).1 == Operation::Create
                && cs[m].0.is_prefix_of(at_of(convert_spec(dom, cs).0[j])),
    decreases cs.len(),
{
    let evs = convert_spec(dom, cs).0;
    let head = convert_step(dom, cs[0]).0;
    let rest = convert_spec(dom, cs.drop_first()).0;
    if j < head.len() {
        match cs[0].1 {
            Operation::Create => {
                match find_spec(dom, cs[0].0) {
                    Some(n) => {
                        lemma_expand_preorder(cs[0].0, n);
                        assert(evs[j] == head[j]);
                        assert(cs[0].0.is_prefix_of(at_of(evs[j])));
                        assert(0 <= 0 < cs.len() && (cs[0]).1 == Operation::Create
                            && cs[0].0.is_prefix_of(at_of(evs[j])));
                    },
                    None => {
                        assert(head.len() == 0);
                    },
                }
            },
            Operation::Update => {
                assert(evs[j] == head[j]);
                assert(!is_create(evs[j]));
            },
            Operation::Remove => {
                assert(evs[j] == head[j]);
                assert(!is_create(evs[j]));
            },
        }
    } else {
        assert(evs[j] == rest[j - head.len()]);
        lemma_convert_create_origin(dom, cs.drop_first(), j - head.len());
        let m0 = choose|m0: int|
            0 <= m0 < cs.drop_first().len() && (#[trigger] cs.drop_first()[m0]).1
                == Operation::Create && cs.drop_first()[m0].0.is_prefix_of(
                at_of(convert_spec(dom, cs.drop_first()).0[j - head.len()]),
            );
        assert(cs[m0 + 1] == cs.drop_first()[m0]);
        assert(0 <= m0 + 1 < cs.len() && (cs[m0 + 1]).1 == Operation::Create && cs[m0
            + 1].0.is_prefix_of(at_of(evs[j])));
    }
}

/// Law: translating an ancestor-first changeset emits a parent's `Create`
/// event, wherever one exists at all, before any `Create` event for one
/// of the parent's descendants.
pub proof fn lemma_convert_parent_create_first<S: Message>(
    dom: Object<S>,
    cs: Seq<(Seq<usize>, Operation)>,
    j: int,
    p: Seq<usize>,
)
    requires
        ancestor_first(cs),
        0 <= j < convert_spec(dom, cs).0.len(),
        is_create(convert_spec(dom, cs).0[j]),
        p.is_prefix_of(at_of(convert_spec(dom, cs).0[j])),
        p.len() < at_of(convert_spec(dom, cs).0[j]).len(),
        exists|i: int|
            0 <= i < convert_spec(dom, cs).0.len() && is_create(
                #[trigger] convert_spec(dom, cs).0[i],
            ) && at_of(convert_spec(dom, cs).0[i]) == p,
    ensures
        exists|k: int|
            0 <= k < j && is_create(#[trigger] convert_spec(dom, cs).0[k]) && at_of(
                convert_spec(dom, cs).0[k],
            ) == p,
    decreases cs.len(),
{
    let evs = convert_spec(dom, cs).0;
    let head = convert_step(dom, cs[0]).0;
    let rest = convert_spec(dom, cs.drop_first()).0;
    let q = at_of(evs[j]);
    let i = choose|i: int|
        0 <= i < evs.len() && is_create(#[trigger] evs[i]) && at_of(evs[i]) == p;
    if j < head.len() {
        assert(evs[j] == head[j]);
        match cs[0].1 {
            Operation::Create => {
                match find_spec(dom, cs[0].0) {
                    Some(n) => {
                        let r = cs[0].0;
                        lemma_expand_preorder(r, n);
                        assert(r.is_prefix_of(q));
                        if r.is_prefix_of(p) {
                            lemma_expand_contains_ancestors(r, n, j, p);
                            let k = choose|k: int|
                                0 <= k < j && #[trigger] at_of(head[k]) == p;
                            assert(evs[k] == head[k]);
                            assert(is_create(evs[k]) && at_of(evs[k]) == p);
                        } else {
                            // the parent create would stem from a change strictly
                            // above this one, which ancestor-first order forbids
                            lemma_convert_create_origin(dom, cs, i);
                            let m = choose|m: int|
                                0 <= m < cs.len() && (#[trigger] cs[m]).1 == Operation::Create
                                    && cs[m].0.is_prefix_of(at_of(evs[i]));
                            assert(cs[m].0.is_prefix_of(p));
                            if m == 0 {
                                assert(r.is_prefix_of(p));
                            } else {
                                assert(p.is_prefix_of(r)) by {
                                    assert(p.take(p.len() as int) =~= p);
                                    assert(r.take(r.len() as int) =~= r);
                                    if r.len() <= p.len() {
                                        assert(r =~= p.take(r.len() as int)) by {
                                            assert(r =~= q.take(r.len() as int));
                                            assert(p =~= q.take(p.len() as int));
                                            assert(q.take(p.len() as int).take(r.len() as int)
                                                =~= q.take(r.len() as int));
                                        }
                                        assert(r.is_prefix_of(p));
                                    } else {
                                        assert(p =~= r.take(p.len() as int)) by {
                                            assert(r =~= q.take(r.len() as int));
                                            assert(p =~= q.take(p.len() as int));
                                            assert(q.take(r.len() as int).take(p.len() as int)
                                                =~= q.take(p.len() as int));
                                        }
                                    }
                                }
                                assert(cs[m].0.is_prefix_of(cs[0].0)) by {
                                    assert(cs[m].0 =~= p.take(cs[m].0.len() as int));
                                    assert(p =~= r.take(p.len() as int));
                                    assert(r.take(p.len() as int).take(cs[m].0.len() as int)
                                        =~= r.take(cs[m].0.len() as int));
                                }
                                assert(cs[m].0.len() < cs[0].0.len());
                                assert(false);
                            }
                        }
                    },
                    None => {
                        assert(head.len() == 0);
                    },
                }
            },
            Operation::Update => {
                assert(!is_create(evs[j]));
            },
            Operation::Remove => {
                assert(!is_create(evs[j]));
            },
        }
    } else {
        if i < head.len() {
            assert(0 <= i < j && is_create(evs[i]) && at_of(evs[i]) == p);
        } else {
            assert(evs[j] == rest[j - head.len()]);
            assert(evs[i] == rest[i - head.len()]);
            assert(ancestor_first(cs.drop_first())) by {
                assert forall|i1: int, j1: int|
                    0 <= i1 < j1 < cs.drop_first().len() implies !((#[trigger] cs.drop_first()[
                j1]).0.is_prefix_of((#[trigger] cs.drop_first()[i1]).0) && cs.drop_first()[
                j1].0.len() < cs.drop_first()[i1].0.len()) by {
                    assert(cs.drop_first()[i1] == cs[i1 + 1]);
                    assert(cs.drop_first()[j1] == cs[j1 + 1]);
                }
            }
            lemma_convert_parent_create_first(dom, cs.drop_first(), j - head.len(), p);
            let k0 = choose|k0: int|
                0 <= k0 < j - head.len() && is_create(#[trigger] rest[k0]) && at_of(rest[k0])
                    == p;
            assert(evs[head.len() + k0] == rest[k0]);
            assert(0 <= head.len() + k0 < j && is_create(evs[head.len() + k0]) && at_of(
                evs[head.len() + k0],
            ) == p);
        }
    }
}


/// Law: translating the changeset the diff engine itself produced emits a
/// parent's `Create` event, wherever one exists at all, before any
/// `Create` event for one of the parent's descendants.
pub proof fn lemma_diff_convert_parent_create_first<S: Message>(
    old: Object<S>,
    new: Object<S>,
    j: int,
    p: Seq<usize>,
)
    requires
        0 <= j < convert_spec(new, crate::tree::diff_spec(old, new, Seq::<usize>::empty())).0.len(),
        is_create(
            convert_spec(new, crate::tree::diff_spec(old, new, Seq::<usize>::empty())).0[j],
        ),
        p.is_prefix_of(
            at_of(convert_spec(new, crate::tree::diff_spec(old, new, Seq::<usize>::empty())).0[j]),
        ),
        p.len() < at_of(
            convert_spec(new, crate::tree::diff_spec(old, new, Seq::<usize>::empty())).0[j],
        ).len(),
        exists|i: int|
            0 <= i < convert_spec(
                new,
                crate::tree::diff_spec(old, new, Seq::<usize>::empty()),
            ).0.len() && is_create(
                #[trigger] convert_spec(
                    new,
                    crate::tree::diff_spec(old, new, Seq::<usize>::empty()),
                ).0[i],
            ) && at_of(
                convert_spec(new, crate::tree::diff_spec(old, new, Seq::<usize>::empty())).0[i],
            ) == p,
    ensures
        exists|k: int|
            0 <= k < j && is_create(
                #[trigger] convert_spec(
                    new,
                    crate::tree::diff_spec(old, new, Seq::<usize>::empty()),
                ).0[k],
            ) && at_of(
                convert_spec(new, crate::tree::diff_spec(old, new, Seq::<usize>::empty())).0[k],
            ) == p,
{
    lemma_obj_bounded_width(old);
    lemma_obj_bounded_width(new);
    crate::tree::lemma_diff_ancestor_first(old, new, Seq::<usize>::empty());
    lemma_convert_parent_create_first(
        new,
        crate::tree::diff_spec(old, new, Seq::<usize>::empty()),
        j,
        p,
    );
}

} // verus!
