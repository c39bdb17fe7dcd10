//! What holds of every transcoding: a model of values, the signals with
//! which a source gives them and the calls with which a sink builds them, and
//! the laws that relate a session's runs to them.
use vstd::prelude::*;

use crate::session::{finished, initial, lemma_run_append, next, run, Frame, State};
use crate::shape::{is_primitive, Call, Event, Fault, Shape, Side};

verus! {

/// A structured value, as a source describes it and a sink rebuilds it.
pub enum Tree {
    /// A value complete in itself; its shape is primitive.
    Leaf(Shape),
    /// An optional value that is there.
    Present(Box<Tree>),
    /// A single-field wrapper.
    Wrapped(Box<Tree>),
    /// A sequence, with the count that its source advertises.
    Sequence(Option<usize>, Seq<Tree>),
    /// A keyed collection as the source gives its entries, with the count
    /// that its source advertises.
    Mapping(Option<usize>, Seq<(Tree, Tree)>),
}

/// Whether every leaf of the value holds a primitive shape.
pub open spec fn well_formed(t: Tree) -> bool
    decreases t,
{
    match t {
        Tree::Leaf(s) => is_primitive(s),
        Tree::Present(inner) => well_formed(*inner),
        Tree::Wrapped(inner) => well_formed(*inner),
        Tree::Sequence(_, items) => elements_well_formed(items),
        Tree::Mapping(_, entries) => entries_well_formed(entries),
    }
}

/// Whether every element of a sequence is well formed.
pub open spec fn elements_well_formed(items: Seq<Tree>) -> bool
    decreases items,
{
    items.len() == 0 || (elements_well_formed(items.drop_last()) && well_formed(items.last()))
}

/// Whether every key and every value of a keyed collection is well formed.
pub open spec fn entries_well_formed(entries: Seq<(Tree, Tree)>) -> bool
    decreases entries,
{
    entries.len() == 0 || (entries_well_formed(entries.drop_last()) && well_formed(
        entries.last().0,
    ) && well_formed(entries.last().1))
}

/// The signals with which a source gives a value.
pub open spec fn events_of(t: Tree) -> Seq<Event>
    decreases t,
{
    match t {
        Tree::Leaf(s) => seq![Event::Value(s)],
        Tree::Present(inner) => seq![Event::Value(Shape::Present)] + events_of(*inner),
        Tree::Wrapped(inner) => seq![Event::Value(Shape::Wrapped)] + events_of(*inner),
        Tree::Sequence(hint, items) => seq![Event::Value(Shape::Sequence(hint))] + element_events(
            items,
        ) + seq![Event::End],
        Tree::Mapping(hint, entries) => seq![Event::Value(Shape::Mapping(hint))] + entry_events(
            entries,
        ) + seq![Event::End],
    }
}

/// The signals with which a source gives the elements of a sequence.
pub open spec fn element_events(items: Seq<Tree>) -> Seq<Event>
    decreases items,
{
    if items.len() == 0 {
        Seq::empty()
    } else {
        element_events(items.drop_last()) + seq![Event::Next] + events_of(items.last())
    }
}

/// The signals with which a source gives the entries of a keyed collection.
pub open spec fn entry_events(entries: Seq<(Tree, Tree)>) -> Seq<Event>
    decreases entries,
{
    if entries.len() == 0 {
        Seq::empty()
    } else {
        entry_events(entries.drop_last()) + seq![Event::Next] + events_of(entries.last().0)
            + seq![Event::Next] + events_of(entries.last().1)
    }
}

/// The calls with which a sink is asked to build a value.
pub open spec fn calls_of(t: Tree) -> Seq<Call>
    decreases t,
{
    match t {
        Tree::Leaf(s) => seq![Call::Encode(s)],
        Tree::Present(inner) => seq![Call::Encode(Shape::Present)] + calls_of(*inner),
        Tree::Wrapped(inner) => seq![Call::Encode(Shape::Wrapped)] + calls_of(*inner),
        Tree::Sequence(hint, items) => seq![Call::Encode(Shape::Sequence(hint))] + element_calls(
            items,
        ) + seq![Call::EndSequence],
        Tree::Mapping(hint, entries) => seq![Call::Encode(Shape::Mapping(hint))] + entry_calls(
            entries,
        ) + seq![Call::EndMap],
    }
}

/// The calls with which a sink is asked to append the elements of a sequence.
pub open spec fn element_calls(items: Seq<Tree>) -> Seq<Call>
    decreases items,
{
    if items.len() == 0 {
        Seq::empty()
    } else {
        element_calls(items.drop_last()) + seq![Call::AppendElement] + calls_of(items.last())
    }
}

/// The calls with which a sink is asked to append the entries of a keyed collection.
pub open spec fn entry_calls(entries: Seq<(Tree, Tree)>) -> Seq<Call>
    decreases entries,
{
    if entries.len() == 0 {
        Seq::empty()
    } else {
        entry_calls(entries.drop_last()) + seq![Call::AppendKey] + calls_of(entries.last().0)
            + seq![Call::AppendValue] + calls_of(entries.last().1)
    }
}

/// A session that owes a value forwards the signals of a well-formed value
/// as exactly the calls that build it, and then owes nothing.
proof fn lemma_forward_value(t: Tree, s: State)
    requires
        well_formed(t),
        s.owed,
        s.failed is None,
    ensures
        run(s, events_of(t)) == (State { owed: false, ..s }, calls_of(t), None::<Fault>),
    decreases t,
{
    match t {
        Tree::Leaf(shape) => {
            lemma_single(s, Event::Value(shape));
        },
        Tree::Present(inner) => {
            lemma_single(s, Event::Value(Shape::Present));
            lemma_forward_value(*inner, s);
            lemma_run_append(s, seq![Event::Value(Shape::Present)], events_of(*inner));
        },
        Tree::Wrapped(inner) => {
            lemma_single(s, Event::Value(Shape::Wrapped));
            lemma_forward_value(*inner, s);
            lemma_run_append(s, seq![Event::Value(Shape::Wrapped)], events_of(*inner));
        },
        Tree::Sequence(hint, items) => {
            let head = seq![Event::Value(Shape::Sequence(hint))];
            let s1 = State { frames: s.frames.push(Frame::Sequence), owed: false, ..s };
            lemma_single(s, Event::Value(Shape::Sequence(hint)));
            lemma_forward_elements(items, s1);
            lemma_single(s1, Event::End);
            assert(s1.frames.drop_last() =~= s.frames);
            lemma_run_append(s, head, element_events(items));
            lemma_run_append(s, head + element_events(items), seq![Event::End]);
        },
        Tree::Mapping(hint, entries) => {
            let head = seq![Event::Value(Shape::Mapping(hint))];
            let s1 = State { frames: s.frames.push(Frame::Keys), owed: false, ..s };
            lemma_single(s, Event::Value(Shape::Mapping(hint)));
            lemma_forward_entries(entries, s1);
            lemma_single(s1, Event::End);
            assert(s1.frames.drop_last() =~= s.frames);
            lemma_run_append(s, head, entry_events(entries));
            lemma_run_append(s, head + entry_events(entries), seq![Event::End]);
        },
    }
}

/// Running one signal is taking one step.
proof fn lemma_single(s: State, e: Event)
    ensures
        run(s, seq![e]) == ({
            let (s1, r) = next(s, e);
            match r {
                Ok(c) => (s1, seq![c], None),
                Err(f) => (s1, Seq::empty(), Some(f)),
            }
        }),
{
    reveal_with_fuel(run, 2);
    assert(seq![e][0] == e);
    assert(seq![e].drop_first() =~= Seq::<Event>::empty());
    let (s1, r) = next(s, e);
    if let Ok(c) = r {
        assert(seq![c] + Seq::<Call>::empty() =~= seq![c]);
    }
}

/// Inside an open sequence, the elements are forwarded one for one.
proof fn lemma_forward_elements(items: Seq<Tree>, s: State)
    requires
        elements_well_formed(items),
        !s.owed,
        s.failed is None,
        s.frames.len() > 0,
        s.frames.last() == Frame::Sequence,
    ensures
        run(s, element_events(items)) == (s, element_calls(items), None::<Fault>),
    decreases items,
{
    if items.len() == 0 {
    } else {
        let front = items.drop_last();
        let last = items.last();
        lemma_forward_elements(front, s);
        let s1 = State { owed: true, ..s };
        lemma_single(s, Event::Next);
        lemma_forward_value(last, s1);
        lemma_run_append(s, element_events(front), seq![Event::Next]);
        lemma_run_append(s, element_events(front) + seq![Event::Next], events_of(last));
        assert(element_calls(front) + seq![Call::AppendElement] + calls_of(last)
            =~= element_calls(items));
    }
}

/// Inside an open keyed collection, each key and then its value are
/// forwarded one for one.
proof fn lemma_forward_entries(entries: Seq<(Tree, Tree)>, s: State)
    requires
        entries_well_formed(entries),
        !s.owed,
        s.failed is None,
        s.frames.len() > 0,
        s.frames.last() == Frame::Keys,
    ensures
        run(s, entry_events(entries)) == (s, entry_calls(entries), None::<Fault>),
    decreases entries,
{
    if entries.len() == 0 {
    } else {
        let front = entries.drop_last();
        let (k, v) = entries.last();
        lemma_forward_entries(front, s);
        let top = s.frames.len() - 1;
        let s1 = State { frames: s.frames.update(top, Frame::Values), owed: true, ..s };
        let s2 = State { owed: false, ..s1 };
        let s3 = State { frames: s1.frames.update(top, Frame::Keys), ..s1 };
        lemma_single(s, Event::Next);
        lemma_forward_value(k, s1);
        lemma_single(s2, Event::Next);
        assert(s3.frames =~= s.frames);
        lemma_forward_value(v, s3);
        let a = entry_events(front);
        let b = a + seq![Event::Next];
        let c = b + events_of(k);
        let d = c + seq![Event::Next];
        lemma_run_append(s, a, seq![Event::Next]);
        lemma_run_append(s, b, events_of(k));
        lemma_run_append(s, c, seq![Event::Next]);
        lemma_run_append(s, d, events_of(v));
        assert(entry_calls(front) + seq![Call::AppendKey] + calls_of(k) + seq![Call::AppendValue]
            + calls_of(v) =~= entry_calls(entries));
    }
}

/// Every well-formed value, given by a source to a fresh session, reaches the
/// sink as exactly the calls that build the same value: each primitive with
/// its payload unchanged, each optional and wrapper around the same inner
/// value, each sequence with its elements in order, each keyed collection
/// with each key followed by its own value. The session is finished after it.
pub proof fn lemma_round_trip(t: Tree)
    requires
        well_formed(t),
    ensures
        run(initial(), events_of(t)).1 == calls_of(t),
        run(initial(), events_of(t)).2 is None,
        finished(run(initial(), events_of(t)).0),
{
    lemma_forward_value(t, initial());
}

/// An absent optional and a present optional reach the sink differently,
/// whatever the present one wraps.
pub proof fn lemma_absent_differs_from_present(t: Tree)
    ensures
        calls_of(Tree::Leaf(Shape::Absent)) != calls_of(Tree::Present(Box::new(t))),
{
    assert(calls_of(Tree::Leaf(Shape::Absent))[0] != calls_of(Tree::Present(Box::new(t)))[0]);
}

/// A finished session refuses every further signal but a failure as drained,
/// and stays as it is.
pub proof fn lemma_drained(s: State, e: Event)
    requires
        finished(s),
        !(e is Failed),
    ensures
        next(s, e) == (s, Err::<Call, Fault>(Fault::Drained)),
{
}

/// Once a failure is reported, every signal is refused with that failure's
/// side, and the session stays as it is: no call at all reaches the sink
/// afterwards, in particular no end of an open composite.
pub proof fn lemma_failure_is_final(s: State, e: Event)
    requires
        s.failed is Some,
    ensures
        next(s, e) == (s, Err::<Call, Fault>(Fault::Aborted(s.failed->0))),
{
}

/// A failure in the middle of a stream stops it: the sink receives exactly
/// the calls for the signals before the failure, and the caller sees the
/// failure with its side.
pub proof fn lemma_short_circuit(s: State, before: Seq<Event>, side: Side, after: Seq<Event>)
    requires
        s.failed is None,
        run(s, before).2 is None,
    ensures
        run(s, before + seq![Event::Failed(side)] + after) == (
            State { failed: Some(side), ..run(s, before).0 },
            run(s, before).1,
            Some(Fault::Aborted(side)),
        ),
{
    lemma_run_keeps_success(s, before);
    let s1 = run(s, before).0;
    lemma_single(s1, Event::Failed(side));
    lemma_run_append(s, before, seq![Event::Failed(side)]);
    lemma_run_append(s, before + seq![Event::Failed(side)], after);
    assert(run(s, before).1 + Seq::<Call>::empty() =~= run(s, before).1);
}

/// A stream that runs without a fault leaves the session without failure.
proof fn lemma_run_keeps_success(s: State, events: Seq<Event>)
    requires
        s.failed is None,
        run(s, events).2 is None,
    ensures
        run(s, events).0.failed is None,
    decreases events.len(),
{
    if events.len() > 0 {
        lemma_run_keeps_success(next(s, events[0]).0, events.drop_first());
    }
}

/// The calls that a sink receives for a well-formed value determine the
/// value: a sink that rebuilds what it is asked to build gets back exactly
/// the value that the source gave.
pub proof fn lemma_calls_determine_value(t1: Tree, t2: Tree)
    requires
        well_formed(t1),
        well_formed(t2),
        calls_of(t1) == calls_of(t2),
    ensures
        t1 == t2,
{
    assert(calls_of(t1) + Seq::<Call>::empty() =~= calls_of(t1));
    assert(calls_of(t2) + Seq::<Call>::empty() =~= calls_of(t2));
    lemma_decode_value(t1, t2, Seq::empty(), Seq::empty());
}

/// A value given by a source to a fresh session, and rebuilt by a sink from
/// the calls that it received, is the value that the source gave.
pub proof fn lemma_rebuilt_value_is_original(t: Tree, rebuilt: Tree)
    requires
        well_formed(t),
        well_formed(rebuilt),
        calls_of(rebuilt) == run(initial(), events_of(t)).1,
    ensures
        rebuilt == t,
{
    lemma_round_trip(t);
    lemma_calls_determine_value(rebuilt, t);
}

/// Elements are well formed exactly when each of them is.
proof fn lemma_elements_well_formed(items: Seq<Tree>)
    ensures
        elements_well_formed(items) == (forall|i: int|
            0 <= i < items.len() ==> #[trigger] well_formed(items[i])),
    decreases items.len(),
{
    if items.len() > 0 {
        let front = items.drop_last();
        lemma_elements_well_formed(front);
        assert forall|i: int| 0 <= i < items.len() - 1 implies #[trigger] front[i] == items[i] by {}
        if elements_well_formed(items) {
            assert forall|i: int| 0 <= i < items.len() implies #[trigger] well_formed(items[i]) by {
                if i < items.len() - 1 {
                    assert(well_formed(front[i]));
                }
            }
        }
        if forall|i: int| 0 <= i < items.len() ==> #[trigger] well_formed(items[i]) {
            assert forall|i: int| 0 <= i < front.len() implies #[trigger] well_formed(front[i]) by {
                assert(well_formed(items[i]));
            }
            assert(well_formed(items[items.len() - 1]));
        }
    }
}

/// Entries are well formed exactly when each key and each value is.
proof fn lemma_entries_well_formed(entries: Seq<(Tree, Tree)>)
    ensures
        entries_well_formed(entries) == (forall|i: int|
            0 <= i < entries.len() ==> well_formed(#[trigger] entries[i].0) && well_formed(
                entries[i].1,
            )),
    decreases entries.len(),
{
    if entries.len() > 0 {
        let front = entries.drop_last();
        lemma_entries_well_formed(front);
        assert forall|i: int| 0 <= i < entries.len() - 1 implies #[trigger] front[i]
            == entries[i] by {}
        if entries_well_formed(entries) {
            assert forall|i: int| 0 <= i < entries.len() implies well_formed(
                #[trigger] entries[i].0,
            ) && well_formed(entries[i].1) by {
                if i < entries.len() - 1 {
                    assert(well_formed(front[i].0));
                }
            }
        }
        if forall|i: int|
            0 <= i < entries.len() ==> well_formed(#[trigger] entries[i].0) && well_formed(
                entries[i].1,
            ) {
            assert forall|i: int| 0 <= i < front.len() implies well_formed(#[trigger] front[i].0)
                && well_formed(front[i].1) by {
                assert(well_formed(entries[i].0));
            }
            assert(well_formed(entries[entries.len() - 1].0));
        }
    }
}

/// The calls for the elements of a sequence, read from the front.
proof fn lemma_element_calls_front(items: Seq<Tree>)
    requires
        items.len() > 0,
    ensures
        element_calls(items) == seq![Call::AppendElement] + calls_of(items[0]) + element_calls(
            items.drop_first(),
        ),
    decreases items.len(),
{
    if items.len() == 1 {
        assert(items.drop_last() =~= Seq::<Tree>::empty());
        assert(items.drop_first() =~= Seq::<Tree>::empty());
        assert(Seq::<Call>::empty() + seq![Call::AppendElement] + calls_of(items[0])
            =~= seq![Call::AppendElement] + calls_of(items[0]) + Seq::<Call>::empty());
    } else {
        let front = items.drop_last();
        let rest = items.drop_first();
        lemma_element_calls_front(front);
        assert(rest.drop_last() =~= front.drop_first());
        assert(front[0] == items[0]);
        assert(rest.last() == items.last());
        assert(element_calls(front) + seq![Call::AppendElement] + calls_of(items.last())
            =~= seq![Call::AppendElement] + calls_of(items[0]) + (element_calls(rest.drop_last())
            + seq![Call::AppendElement] + calls_of(rest.last())));
    }
}

/// The calls for the entries of a keyed collection, read from the front.
proof fn lemma_entry_calls_front(entries: Seq<(Tree, Tree)>)
    requires
        entries.len() > 0,
    ensures
        entry_calls(entries) == seq![Call::AppendKey] + calls_of(entries[0].0) + seq![
            Call::AppendValue,
        ] + calls_of(entries[0].1) + entry_calls(entries.drop_first()),
    decreases entries.len(),
{
    let head = seq![Call::AppendKey] + calls_of(entries[0].0) + seq![Call::AppendValue]
        + calls_of(entries[0].1);
    if entries.len() == 1 {
        assert(entries.drop_last() =~= Seq::<(Tree, Tree)>::empty());
        assert(entries.drop_first() =~= Seq::<(Tree, Tree)>::empty());
        assert(Seq::<Call>::empty() + seq![Call::AppendKey] + calls_of(entries.last().0)
            + seq![Call::AppendValue] + calls_of(entries.last().1) =~= head
            + Seq::<Call>::empty());
    } else {
        let front = entries.drop_last();
        let rest = entries.drop_first();
        lemma_entry_calls_front(front);
        assert(rest.drop_last() =~= front.drop_first());
        assert(front[0] == entries[0]);
        assert(rest.last() == entries.last());
        let tail = seq![Call::AppendKey] + calls_of(entries.last().0) + seq![Call::AppendValue]
            + calls_of(entries.last().1);
        assert(entry_calls(front) + seq![Call::AppendKey] + calls_of(entries.last().0)
            + seq![Call::AppendValue] + calls_of(entries.last().1) =~= entry_calls(front) + tail);
        assert(entry_calls(rest) =~= entry_calls(rest.drop_last()) + tail);
        assert(head + entry_calls(front.drop_first()) + tail =~= head + (entry_calls(
            rest.drop_last(),
        ) + tail));
    }
}

/// Two well-formed values whose calls, each followed by some rest, agree are
/// the same value, with the same rest.
proof fn lemma_decode_value(t1: Tree, t2: Tree, r1: Seq<Call>, r2: Seq<Call>)
    requires
        well_formed(t1),
        well_formed(t2),
        calls_of(t1) + r1 == calls_of(t2) + r2,
    ensures
        t1 == t2,
        r1 == r2,
    decreases t1,
{
    let a = calls_of(t1) + r1;
    let b = calls_of(t2) + r2;
    assert(a[0] == calls_of(t1)[0]);
    assert(b[0] == calls_of(t2)[0]);
    match t1 {
        Tree::Leaf(s1) => {
            assert(t2 is Leaf);
            assert(r1 =~= a.drop_first());
            assert(r2 =~= b.drop_first());
        },
        Tree::Present(i1) => {
            let i2 = t2->Present_0;
            assert(a.drop_first() =~= calls_of(*i1) + r1);
            assert(b.drop_first() =~= calls_of(*i2) + r2);
            lemma_decode_value(*i1, *i2, r1, r2);
        },
        Tree::Wrapped(i1) => {
            let i2 = t2->Wrapped_0;
            assert(a.drop_first() =~= calls_of(*i1) + r1);
            assert(b.drop_first() =~= calls_of(*i2) + r2);
            lemma_decode_value(*i1, *i2, r1, r2);
        },
        Tree::Sequence(h1, items1) => {
            let items2 = t2->Sequence_1;
            let e1 = seq![Call::EndSequence] + r1;
            let e2 = seq![Call::EndSequence] + r2;
            assert(a.drop_first() =~= element_calls(items1) + e1);
            assert(b.drop_first() =~= element_calls(items2) + e2);
            lemma_elements_well_formed(items1);
            lemma_elements_well_formed(items2);
            lemma_decode_elements(items1, items2, e1, e2);
            assert(r1 =~= e1.drop_first());
            assert(r2 =~= e2.drop_first());
        },
        Tree::Mapping(h1, entries1) => {
            let entries2 = t2->Mapping_1;
            let e1 = seq![Call::EndMap] + r1;
            let e2 = seq![Call::EndMap] + r2;
            assert(a.drop_first() =~= entry_calls(entries1) + e1);
            assert(b.drop_first() =~= entry_calls(entries2) + e2);
            lemma_entries_well_formed(entries1);
            lemma_entries_well_formed(entries2);
            lemma_decode_entries(entries1, entries2, e1, e2);
            assert(r1 =~= e1.drop_first());
            assert(r2 =~= e2.drop_first());
        },
    }
}

/// Two element lists whose calls, each followed by the end of the
/// sequence, agree are the same list, with the same rest.
proof fn lemma_decode_elements(i1: Seq<Tree>, i2: Seq<Tree>, r1: Seq<Call>, r2: Seq<Call>)
    requires
        forall|i: int| 0 <= i < i1.len() ==> #[trigger] well_formed(i1[i]),
        forall|i: int| 0 <= i < i2.len() ==> #[trigger] well_formed(i2[i]),
        r1.len() > 0 && r1[0] == Call::EndSequence,
        r2.len() > 0 && r2[0] == Call::EndSequence,
        element_calls(i1) + r1 == element_calls(i2) + r2,
    ensures
        i1 == i2,
        r1 == r2,
    decreases i1,
{
    if i1.len() == 0 {
        assert(element_calls(i1) + r1 =~= r1);
        if i2.len() > 0 {
            lemma_element_calls_front(i2);
            assert((element_calls(i2) + r2)[0] == Call::AppendElement);
        }
        assert(element_calls(i2) + r2 =~= r2);
        assert(i1 =~= i2);
    } else if i2.len() == 0 {
        assert(element_calls(i2) + r2 =~= r2);
        lemma_element_calls_front(i1);
        assert((element_calls(i1) + r1)[0] == Call::AppendElement);
    } else {
        lemma_element_calls_front(i1);
        lemma_element_calls_front(i2);
        let rest1 = element_calls(i1.drop_first()) + r1;
        let rest2 = element_calls(i2.drop_first()) + r2;
        assert((element_calls(i1) + r1).drop_first() =~= calls_of(i1[0]) + rest1);
        assert((element_calls(i2) + r2).drop_first() =~= calls_of(i2[0]) + rest2);
        assert(well_formed(i1[0]));
        assert(well_formed(i2[0]));
        lemma_decode_value(i1[0], i2[0], rest1, rest2);
        assert forall|i: int| 0 <= i < i1.drop_first().len() implies #[trigger] well_formed(
            i1.drop_first()[i],
        ) by {
            assert(well_formed(i1[i + 1]));
        }
        assert forall|i: int| 0 <= i < i2.drop_first().len() implies #[trigger] well_formed(
            i2.drop_first()[i],
        ) by {
            assert(well_formed(i2[i + 1]));
        }
        lemma_decode_elements(i1.drop_first(), i2.drop_first(), r1, r2);
        assert(i1 =~= seq![i1[0]] + i1.drop_first());
        assert(i2 =~= seq![i2[0]] + i2.drop_first());
    }
}

/// Two entry lists whose calls, each followed by the end of the keyed
/// collection, agree are the same list, with the same rest.
proof fn lemma_decode_entries(
    e1: Seq<(Tree, Tree)>,
    e2: Seq<(Tree, Tree)>,
    r1: Seq<Call>,
    r2: Seq<Call>,
)
    requires
        forall|i: int|
            0 <= i < e1.len() ==> well_formed(#[trigger] e1[i].0) && well_formed(e1[i].1),
        forall|i: int|
            0 <= i < e2.len() ==> well_formed(#[trigger] e2[i].0) && well_formed(e2[i].1),
        r1.len() > 0 && r1[0] == Call::EndMap,
        r2.len() > 0 && r2[0] == Call::EndMap,
        entry_calls(e1) + r1 == entry_calls(e2) + r2,
    ensures
        e1 == e2,
        r1 == r2,
    decreases e1,
{
    if e1.len() == 0 {
        assert(entry_calls(e1) + r1 =~= r1);
        if e2.len() > 0 {
            lemma_entry_calls_front(e2);
            assert((entry_calls(e2) + r2)[0] == Call::AppendKey);
        }
        assert(entry_calls(e2) + r2 =~= r2);
        assert(e1 =~= e2);
    } else if e2.len() == 0 {
        assert(entry_calls(e2) + r2 =~= r2);
        lemma_entry_calls_front(e1);
        assert((entry_calls(e1) + r1)[0] == Call::AppendKey);
    } else {
        lemma_entry_calls_front(e1);
        lemma_entry_calls_front(e2);
        let (k1, v1) = e1[0];
        let (k2, v2) = e2[0];
        let rest1 = entry_calls(e1.drop_first()) + r1;
        let rest2 = entry_calls(e2.drop_first()) + r2;
        let after1 = seq![Call::AppendValue] + calls_of(v1) + rest1;
        let after2 = seq![Call::AppendValue] + calls_of(v2) + rest2;
        assert((entry_calls(e1) + r1).drop_first() =~= calls_of(k1) + after1);
        assert((entry_calls(e2) + r2).drop_first() =~= calls_of(k2) + after2);
        assert(well_formed(e1[0].0));
        assert(well_formed(e2[0].0));
        lemma_decode_value(k1, k2, after1, after2);
        assert(after1.drop_first() =~= calls_of(v1) + rest1);
        assert(after2.drop_first() =~= calls_of(v2) + rest2);
        lemma_decode_value(v1, v2, rest1, rest2);
        assert forall|i: int| 0 <= i < e1.drop_first().len() implies well_formed(
            #[trigger] e1.drop_first()[i].0,
        ) && well_formed(e1.drop_first()[i].1) by {
            assert(well_formed(e1[i + 1].0));
        }
        assert forall|i: int| 0 <= i < e2.drop_first().len() implies well_formed(
            #[trigger] e2.drop_first()[i].0,
        ) && well_formed(e2.drop_first()[i].1) by {
            assert(well_formed(e2[i + 1].0));
        }
        lemma_decode_entries(e1.drop_first(), e2.drop_first(), r1, r2);
        assert(e1 =~= seq![e1[0]] + e1.drop_first());
        assert(e2 =~= seq![e2[0]] + e2.drop_first());
    }
}

} // verus!
