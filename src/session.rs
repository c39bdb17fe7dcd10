//! The forwarding session: the step from one source signal to one sink call,
//! and what a session does with a whole stream of signals.
use vstd::prelude::*;

use crate::shape::{Call, Event, Fault, Shape, Side};

verus! {

/// An open composite on the session's stack.
#[derive(PartialEq, Eq, Structural, Clone, Copy, Debug)]
pub enum Frame {
    /// A sequence: the next signal is `Next` (an element) or `End`.
    Sequence,
    /// A map between entries: the next signal is `Next` (a key) or `End`.
    Keys,
    /// A map whose last key has been forwarded: the next signal is `Next` (its value).
    Values,
}

/// The abstract state of a session.
pub struct State {
    /// The open composites, innermost last.
    pub frames: Seq<Frame>,
    /// Whether the next signal must be the start of a value.
    pub owed: bool,
    /// The side that failed, once a failure has been reported.
    pub failed: Option<Side>,
}

/// The state of a session that has not yet seen any signal.
pub open spec fn initial() -> State {
    State { frames: Seq::empty(), owed: true, failed: None }
}

/// Whether the session has forwarded its whole top-level value without failure.
pub open spec fn finished(s: State) -> bool {
    s.frames.len() == 0 && !s.owed && s.failed is None
}

/// The fault for a signal that comes where it does not fit.
pub open spec fn misplaced(s: State) -> Fault {
    if s.frames.len() == 0 && !s.owed {
        Fault::Drained
    } else {
        Fault::Unexpected
    }
}

/// What a session does with one signal: its next state, and the call it asks
/// of the sink or the fault for which it refuses the signal.
pub open spec fn next(s: State, e: Event) -> (State, Result<Call, Fault>) {
    if let Some(side) = s.failed {
        (s, Err(Fault::Aborted(side)))
    } else {
        match e {
            Event::Failed(side) => (State { failed: Some(side), ..s }, Err(Fault::Aborted(side))),
            Event::Value(shape) => {
                if !s.owed {
                    (s, Err(misplaced(s)))
                } else {
                    match shape {
                        Shape::Sequence(_) => (
                            State { frames: s.frames.push(Frame::Sequence), owed: false, ..s },
                            Ok(Call::Encode(shape)),
                        ),
                        Shape::Mapping(_) => (
                            State { frames: s.frames.push(Frame::Keys), owed: false, ..s },
                            Ok(Call::Encode(shape)),
                        ),
                        Shape::Present => (s, Ok(Call::Encode(shape))),
                        Shape::Wrapped => (s, Ok(Call::Encode(shape))),
                        _ => (State { owed: false, ..s }, Ok(Call::Encode(shape))),
                    }
                }
            },
            Event::Next => {
                if s.owed || s.frames.len() == 0 {
                    (s, Err(misplaced(s)))
                } else {
                    let top = s.frames.len() - 1;
                    match s.frames.last() {
                        Frame::Sequence => (State { owed: true, ..s }, Ok(Call::AppendElement)),
                        Frame::Keys => (
                            State { frames: s.frames.update(top, Frame::Values), owed: true, ..s },
                            Ok(Call::AppendKey),
                        ),
                        Frame::Values => (
                            State { frames: s.frames.update(top, Frame::Keys), owed: true, ..s },
                            Ok(Call::AppendValue),
                        ),
                    }
                }
            },
            Event::End => {
                if s.owed || s.frames.len() == 0 {
                    (s, Err(misplaced(s)))
                } else {
                    match s.frames.last() {
                        Frame::Sequence => (
                            State { frames: s.frames.drop_last(), ..s },
                            Ok(Call::EndSequence),
                        ),
                        Frame::Keys => (State { frames: s.frames.drop_last(), ..s }, Ok(Call::EndMap)),
                        Frame::Values => (s, Err(Fault::Unexpected)),
                    }
                }
            },
        }
    }
}

/// What a session does with a stream of signals: it takes them in order
/// until one is refused. The result is the state reached, the calls asked of
/// the sink, and the fault that stopped the stream, if one did.
pub open spec fn run(s: State, events: Seq<Event>) -> (State, Seq<Call>, Option<Fault>)
    decreases events.len(),
{
    if events.len() == 0 {
        (s, Seq::empty(), None)
    } else {
        let (s1, r) = next(s, events[0]);
        match r {
            Err(f) => (s1, Seq::empty(), Some(f)),
            Ok(c) => {
                let (s2, calls, f) = run(s1, events.drop_first());
                (s2, seq![c] + calls, f)
            },
        }
    }
}

/// Running two streams one after the other is running their concatenation.
pub proof fn lemma_run_append(s: State, a: Seq<Event>, b: Seq<Event>)
    ensures
        run(s, a + b) == ({
            let (s1, c1, f1) = run(s, a);
            if f1 is Some {
                (s1, c1, f1)
            } else {
                let (s2, c2, f2) = run(s1, b);
                (s2, c1 + c2, f2)
            }
        }),
    decreases a.len(),
{
    if a.len() == 0 {
        assert(a + b =~= b);
        let (s2, c2, f2) = run(s, b);
        assert(Seq::<Call>::empty() + c2 =~= c2);
    } else {
        assert((a + b)[0] == a[0]);
        assert((a + b).drop_first() =~= a.drop_first() + b);
        lemma_run_append(next(s, a[0]).0, a.drop_first(), b);
        let (s1, r) = next(s, a[0]);
        if let Ok(c) = r {
            let (sa, ca, fa) = run(s1, a.drop_first());
            if fa is None {
                let (sb, cb, fb) = run(sa, b);
                assert(seq![c] + (ca + cb) =~= (seq![c] + ca) + cb);
            }
        }
    }
}

/// The forwarding of one top-level value from a source to a sink.
///
/// The session is told each signal of the source in turn and answers with
/// the one call that the sink must receive for it. It keeps the stack of open
/// composites, so that it knows whether a `Next` stands for an element, a key
/// or a key's value, and refuses a signal that does not fit. Once a failure
/// has been reported it forwards nothing more, so no composite is closed after
/// an error; once the top-level value is complete it refuses every further
/// signal.
pub struct Session {
    frames: Vec<Frame>,
    owed: bool,
    failed: Option<Side>,
}

impl View for Session {
    type V = State;

    closed spec fn view(&self) -> State {
        State { frames: self.frames@, owed: self.owed, failed: self.failed }
    }
}

impl Session {
    /// A session that waits for the top-level value.
    pub fn new() -> (r: Session)
        ensures
            r@ == initial(),
    {
        let r = Session { frames: Vec::new(), owed: true, failed: None };
        assert(r@.frames =~= Seq::<Frame>::empty());
        r
    }

    /// Whether the whole top-level value has been forwarded without failure.
    pub fn is_finished(&self) -> (r: bool)
        ensures
            r == finished(self@),
    {
        self.frames.len() == 0 && !self.owed && self.failed.is_none()
    }

    /// The side whose failure has been reported, if any.
    pub fn failure(&self) -> (r: Option<Side>)
        ensures
            r == self@.failed,
    {
        self.failed
    }

    fn misplaced(&self) -> (r: Fault)
        ensures
            r == misplaced(self@),
    {
        if self.frames.len() == 0 && !self.owed {
            Fault::Drained
        } else {
            Fault::Unexpected
        }
    }

    /// Takes the signals in order until one is refused; returns the calls
    /// that the sink must receive, and the fault that stopped the stream.
    /// This is for signals already in memory: a streaming driver calls `step`
    /// for each signal as the source gives it.
    pub fn forward_all(&mut self, events: Vec<Event>) -> (r: (Vec<Call>, Option<Fault>))
        ensures
            (final(self)@, r.0@, r.1) == run(old(self)@, events@),
    {
        let mut calls: Vec<Call> = Vec::new();
        let mut rest = events;
        let mut fault: Option<Fault> = None;
        let ghost start = self@;
        while rest.len() > 0 && fault.is_none()
            invariant
                run(start, events@) == ({
                    let (s1, c1, f1) = run(self@, rest@);
                    if fault is Some {
                        (self@, calls@, fault)
                    } else {
                        (s1, calls@ + c1, f1)
                    }
                }),
            decreases rest.len(),
        {
            let ghost before = rest@;
            let ghost s0 = self@;
            let e = rest.remove(0);
            proof {
                assert(before.drop_first() =~= rest@);
            }
            match self.step(e) {
                Ok(c) => {
                    proof {
                        let (s2, c2, f2) = run(self@, rest@);
                        assert(calls@.push(c) + c2 =~= calls@ + (seq![c] + c2));
                    }
                    calls.push(c);
                },
                Err(f) => {
                    proof {
                        assert(run(s0, before) == (self@, Seq::<Call>::empty(), Some(f)));
                        assert(calls@ + Seq::<Call>::empty() =~= calls@);
                    }
                    fault = Some(f);
                },
            }
        }
        proof {
            assert(calls@ + Seq::<Call>::empty() =~= calls@);
        }
        (calls, fault)
    }

    /// Takes the next signal of the source and returns the call that the sink
    /// must receive for it, or the fault for which the signal is refused.
    pub fn step(&mut self, e: Event) -> (r: Result<Call, Fault>)
        ensures
            (final(self)@, r) == next(old(self)@, e),
    {
        if let Some(side) = self.failed {
            return Err(Fault::Aborted(side));
        }
        match e {
            Event::Failed(side) => {
                self.failed = Some(side);
                Err(Fault::Aborted(side))
            },
            Event::Value(shape) => {
                if !self.owed {
                    return Err(self.misplaced());
                }
                match shape {
                    Shape::Sequence(_) => {
                        self.frames.push(Frame::Sequence);
                        self.owed = false;
                    },
                    Shape::Mapping(_) => {
                        self.frames.push(Frame::Keys);
                        self.owed = false;
                    },
                    Shape::Present => {},
                    Shape::Wrapped => {},
                    _ => {
                        self.owed = false;
                    },
                }
                Ok(Call::Encode(shape))
            },
            Event::Next => {
                if self.owed || self.frames.len() == 0 {
                    return Err(self.misplaced());
                }
                let top = self.frames.len() - 1;
                match self.frames[top] {
                    Frame::Sequence => {
                        self.owed = true;
                        Ok(Call::AppendElement)
                    },
                    Frame::Keys => {
                        self.frames.set(top, Frame::Values);
                        self.owed = true;
                        Ok(Call::AppendKey)
                    },
                    Frame::Values => {
                        self.frames.set(top, Frame::Keys);
                        self.owed = true;
                        Ok(Call::AppendValue)
                    },
                }
            },
            Event::End => {
                if self.owed || self.frames.len() == 0 {
                    return Err(self.misplaced());
                }
                let top = self.frames.len() - 1;
                match self.frames[top] {
                    Frame::Sequence => {
                        self.frames.pop();
                        Ok(Call::EndSequence)
                    },
                    Frame::Keys => {
                        self.frames.pop();
                        Ok(Call::EndMap)
                    },
                    Frame::Values => Err(Fault::Unexpected),
                }
            },
        }
    }
}

} // verus!
