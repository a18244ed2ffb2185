//! The event hub: one ordered queue merging merge notifications from the
//! sync engine with raw input events, consumed by a single reader in
//! arrival order. Blocking and wake-ups belong to the embedding; this
//! type carries the queue itself and its first-in, first-out discipline.

use vstd::prelude::*;

verus! {

/// Makes the terminal event type usable in signatures; the hub carries
/// such values through without reading them.
#[verifier::external_type_specification]
#[verifier::external_body]
pub struct ExTerminalEvent(crossterm::event::Event);

/// One event for the consumer.
#[derive(Debug)]
pub enum SyncEvent {
    /// A pull cycle over the known peers has completed.
    Pull,
    /// One raw input event from the terminal.
    Terminal(crossterm::event::Event),
}

/// The ordered queue of events awaiting the consumer.
pub struct EventHub {
    events: Vec<SyncEvent>,
}

impl EventHub {
    /// The pending events, oldest first.
    pub closed spec fn queue(self) -> Seq<SyncEvent> {
        self.events@
    }

    /// A fresh hub with nothing pending.
    pub fn new() -> (r: EventHub)
        ensures
            r.queue() == Seq::<SyncEvent>::empty(),
    {
        EventHub { events: Vec::new() }
    }

    /// Appends one event behind everything already pending. Producers
    /// only ever send; each producer's own order is preserved.
    pub fn send(&mut self, e: SyncEvent)
        ensures
            final(self).queue() == old(self).queue().push(e),
    {
        self.events.push(e);
    }

    /// Hands out the oldest pending event, or nothing when the queue is
    /// empty: events leave in exactly the order they arrived.
    pub fn get_event(&mut self) -> (r: Option<SyncEvent>)
        ensures
            old(self).queue().len() == 0 ==> r is None && final(self).queue() == old(
                self,
            ).queue(),
            old(self).queue().len() > 0 ==> (r matches Some(e) && e == old(self).queue()[0]
                && final(self).queue() == old(self).queue().skip(1)),
    {
        if self.events.len() == 0 {
            None
        } else {
            let e = self.events.remove(0);
            proof {
                assert(self.events@ =~= old(self).events@.skip(1));
            }
            Some(e)
        }
    }
}

} // verus!
