//! The `EventSink` trait, the sink that discards and the sink that fans out.

use vstd::prelude::*;

use crate::observability::event::ObserveEvent;

verus! {

/// A consumer of events.
pub trait EventSink {
    /// Handles one event.
    fn on_event(&self, event: &ObserveEvent);
}

/// A sink that discards every event.
#[derive(Debug, Clone, Copy, Default)]
pub struct NullSink;

impl EventSink for NullSink {
    fn on_event(&self, event: &ObserveEvent) {
    }
}

/// An ordered list of sinks that each event is handed to in turn.
#[derive(Debug)]
pub struct CompositeSink<S> {
    sinks: Vec<S>,
}

impl<S> View for CompositeSink<S> {
    type V = Seq<S>;

    closed spec fn view(&self) -> Seq<S> {
        self.sinks@
    }
}

impl<S> CompositeSink<S> {
    /// A composite over the given sinks, in order.
    pub fn new(sinks: Vec<S>) -> (r: Self)
        ensures
            r@ == sinks@,
    {
        CompositeSink { sinks }
    }

    /// The composite with `sink` added at the end.
    pub fn with(self, sink: S) -> (r: Self)
        ensures
            r@ == self@.push(sink),
    {
        let mut sinks = self.sinks;
        sinks.push(sink);
        CompositeSink { sinks }
    }

    /// Adds `sink` at the end.
    pub fn add(&mut self, sink: S)
        ensures
            final(self)@ == old(self)@.push(sink),
    {
        self.sinks.push(sink);
    }

    /// The number of sinks.
    pub fn len(&self) -> (n: usize)
        ensures
            n == self@.len(),
    {
        self.sinks.len()
    }

    /// Whether there is no sink.
    pub fn is_empty(&self) -> (r: bool)
        ensures
            r == (self@.len() == 0),
    {
        self.sinks.len() == 0
    }
}

/// Whether a sink was handed an event.
pub open spec fn was_handed<S: EventSink>(sink: S, event: ObserveEvent) -> bool {
    call_ensures(S::on_event, (&sink, &event), ())
}

impl<S: EventSink> EventSink for CompositeSink<S> {
    /// Hands an event to every sink, in their order. A sink that may panic is
    /// wrapped by the host: a panic here would keep the event from the rest.
    fn on_event(&self, event: &ObserveEvent)
        ensures
            forall|i: int| 0 <= i < self@.len() ==> was_handed(#[trigger] self@[i], *event),
    {
        let mut i: usize = 0;
        while i < self.sinks.len()
            invariant
                i <= self.sinks.len(),
                forall|k: int| 0 <= k < i ==> was_handed(#[trigger] self.sinks@[k], *event),
            decreases self.sinks.len() - i,
        {
            self.sinks[i].on_event(event);
            assert(was_handed(self.sinks@[i as int], *event));
            i = i + 1;
        }
    }
}

impl<S> Default for CompositeSink<S> {
    fn default() -> (r: Self)
        ensures
            r@ == Seq::<S>::empty(),
    {
        CompositeSink { sinks: Vec::new() }
    }
}

/// What a caught panic said: the message of a literal or of an owned text, and
/// `fallback` where its payload was neither.
pub fn panic_message(literal: Option<&str>, owned: Option<&String>, fallback: &str) -> (out: String)
    ensures
        out@ == match (literal, owned) {
            (Some(l), _) => l@,
            (None, Some(o)) => o@,
            (None, None) => fallback@,
        },
{
    match literal {
        Some(l) => String::from_str(l),
        None => match owned {
            Some(o) => o.clone(),
            None => String::from_str(fallback),
        },
    }
}

} // verus!
