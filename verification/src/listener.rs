//! The loop of one listener.
//!
//! A listener is driven from outside, as a connection is: each call says what
//! has happened and gives back what to do next. It takes a slot before it
//! accepts, hands the slot on with the connection, and stops when it is told
//! to, whatever it waits for.

use vstd::prelude::*;

verus! {

/// Something that happens to a listener.
#[derive(Debug, Clone, Copy, PartialEq, Eq, Structural)]
pub enum ListenEvent {
    /// The process is to stop
    Shutdown,
    /// It was looked whether the process is to stop, and it is not
    Running,
    /// A slot for a connection was taken
    SlotTaken,
    /// There will be no more slots
    SlotsClosed,
    /// A client was accepted
    Accepted,
    /// No client could be accepted
    AcceptFailed,
}

/// What to do next with a listener.
#[derive(Debug, Clone, Copy, PartialEq, Eq, Structural)]
pub enum ListenStep {
    /// Wait for a slot
    TakeSlot,
    /// Wait for a client, keeping the slot
    Accept,
    /// Count the client as accepted and serve it under the slot, which comes
    /// back when the connection has ended; then wait for a slot
    Serve,
    /// Give the slot back, then wait for a slot
    GiveBack,
    /// Give back what is held and stop
    Stop,
}

/// The loop of one listener.
#[derive(Debug)]
pub struct Listener {
    holds_slot: bool,
    stopping: bool,
}

/// What a [`Listener`] holds.
pub struct ListenState {
    /// A slot is held, and a client is waited for
    pub holds_slot: bool,
    /// It has been told to stop
    pub stopping: bool,
}

impl View for Listener {
    type V = ListenState;

    closed spec fn view(&self) -> ListenState {
        ListenState { holds_slot: self.holds_slot, stopping: self.stopping }
    }
}

/// The event can happen to the listener. Whether the process is to stop can be
/// found at any time. What was waited for when it was told to stop can still
/// come.
pub open spec fn can_happen(s: ListenState, event: ListenEvent) -> bool {
    match event {
        ListenEvent::Shutdown | ListenEvent::Running => true,
        ListenEvent::SlotTaken | ListenEvent::SlotsClosed => s.stopping || !s.holds_slot,
        ListenEvent::Accepted | ListenEvent::AcceptFailed => s.stopping || s.holds_slot,
    }
}

impl ListenState {
    /// A listener that waits for a slot.
    pub open spec fn waiting() -> ListenState {
        ListenState { holds_slot: false, stopping: false }
    }

    /// A listener that holds a slot.
    pub open spec fn accepting() -> ListenState {
        ListenState { holds_slot: true, stopping: false }
    }

    /// A listener that has stopped.
    pub open spec fn stopped() -> ListenState {
        ListenState { holds_slot: false, stopping: true }
    }

    /// The listener after an event, and what to do next.
    pub open spec fn next(self, event: ListenEvent) -> (ListenState, ListenStep) {
        if self.stopping {
            (ListenState::stopped(), ListenStep::Stop)
        } else {
            match event {
                ListenEvent::Shutdown | ListenEvent::SlotsClosed => (
                    ListenState::stopped(),
                    ListenStep::Stop,
                ),
                ListenEvent::Running => if self.holds_slot {
                    (self, ListenStep::Accept)
                } else {
                    (self, ListenStep::TakeSlot)
                },
                ListenEvent::SlotTaken => (ListenState::accepting(), ListenStep::Accept),
                ListenEvent::Accepted => (ListenState::waiting(), ListenStep::Serve),
                ListenEvent::AcceptFailed => (ListenState::waiting(), ListenStep::GiveBack),
            }
        }
    }
}

impl Listener {
    /// A listener that has just been bound.
    pub fn start() -> (r: (Self, ListenStep))
        ensures
            r.0@ == ListenState::waiting(),
            r.1 == ListenStep::TakeSlot,
    {
        (Listener { holds_slot: false, stopping: false }, ListenStep::TakeSlot)
    }

    /// A slot is held, and a client is waited for.
    pub fn holds_slot(&self) -> (r: bool)
        ensures
            r == self@.holds_slot,
    {
        self.holds_slot
    }

    /// Takes note of an event.
    pub fn on_event(&mut self, event: ListenEvent) -> (r: ListenStep)
        requires
            can_happen(old(self)@, event),
        ensures
            (final(self)@, r) == old(self)@.next(event),
            event == ListenEvent::Shutdown ==> r is Stop,
            old(self)@.stopping ==> r is Stop,
            r is Accept ==> final(self)@.holds_slot,
    {
        if self.stopping {
            self.holds_slot = false;
            return ListenStep::Stop;
        }
        match event {
            ListenEvent::Shutdown | ListenEvent::SlotsClosed => {
                self.holds_slot = false;
                self.stopping = true;
                ListenStep::Stop
            },
            ListenEvent::Running => if self.holds_slot {
                ListenStep::Accept
            } else {
                ListenStep::TakeSlot
            },
            ListenEvent::SlotTaken => {
                self.holds_slot = true;
                ListenStep::Accept
            },
            ListenEvent::Accepted => {
                self.holds_slot = false;
                ListenStep::Serve
            },
            ListenEvent::AcceptFailed => {
                self.holds_slot = false;
                ListenStep::GiveBack
            },
        }
    }
}

// ── Laws ─────────────────────────────────────────────────────────────────────

/// The listener after all the events, in order.
pub open spec fn after_events(s: ListenState, events: Seq<ListenEvent>) -> ListenState
    decreases events.len(),
{
    if events.len() == 0 {
        s
    } else {
        after_events(s, events.drop_last()).next(events.last()).0
    }
}

/// What the last of the events led to.
pub open spec fn last_step(s: ListenState, events: Seq<ListenEvent>) -> ListenStep {
    after_events(s, events.drop_last()).next(events.last()).1
}

/// Every event can happen when it happens.
pub open spec fn all_can_happen(s: ListenState, events: Seq<ListenEvent>) -> bool
    decreases events.len(),
{
    events.len() > 0 ==> {
        &&& all_can_happen(s, events.drop_last())
        &&& can_happen(after_events(s, events.drop_last()), events.last())
    }
}

/// A shutdown stops a listener whatever it waits for, and it stays stopped: once
/// a shutdown is among the events, every step from there on is to stop.
pub proof fn shutdown_stops_for_good(s: ListenState, events: Seq<ListenEvent>)
    requires
        events.contains(ListenEvent::Shutdown),
    ensures
        can_happen(ListenState::waiting(), ListenEvent::Shutdown),
        can_happen(ListenState::accepting(), ListenEvent::Shutdown),
        after_events(s, events) == ListenState::stopped(),
        last_step(s, events) == ListenStep::Stop,
    decreases events.len(),
{
    let i = choose|i: int| 0 <= i < events.len() && events[i] == ListenEvent::Shutdown;
    if i < events.len() - 1 {
        assert(events.drop_last()[i] == ListenEvent::Shutdown);
        shutdown_stops_for_good(s, events.drop_last());
    }
}

/// Among the steps that the events lead to, how many take a slot, minus those
/// that hand it on or give it back.
pub open spec fn slots_held(s: ListenState, events: Seq<ListenEvent>) -> int
    decreases events.len(),
{
    if events.len() == 0 {
        0
    } else {
        let before = after_events(s, events.drop_last());
        slots_held(s, events.drop_last()) + match before.next(events.last()).1 {
            ListenStep::Accept => if events.last() is SlotTaken {
                1int
            } else {
                0int
            },
            ListenStep::Serve | ListenStep::GiveBack => -1int,
            ListenStep::Stop => if before.holds_slot {
                -1int
            } else {
                0int
            },
            ListenStep::TakeSlot => 0int,
        }
    }
}

/// No slot is lost and none is used twice: every slot that was taken was handed
/// on with one connection or given back, but for the one that is held while a
/// client is waited for. Once the listener has stopped it holds none.
pub proof fn slots_are_accounted_for(events: Seq<ListenEvent>)
    requires
        all_can_happen(ListenState::waiting(), events),
    ensures
        ({
            let after = after_events(ListenState::waiting(), events);
            &&& slots_held(ListenState::waiting(), events) == (if after.holds_slot {
                1int
            } else {
                0int
            })
            &&& after.stopping ==> !after.holds_slot
        }),
    decreases events.len(),
{
    if events.len() > 0 {
        slots_are_accounted_for(events.drop_last());
    }
}

/// A listener that is not told to stop goes on: a slot leads to the wait for a
/// client, a client is served under the slot and frees the listener for the
/// next, a failed accept gives the slot back, and looking whether to stop changes
/// nothing. Only a shutdown and the end of the slots stop it.
pub proof fn running_listener_serves_clients(s: ListenState, event: ListenEvent)
    requires
        !s.stopping,
        can_happen(s, event),
    ensures
        ({
            let (after, step) = s.next(event);
            &&& event is SlotTaken ==> step is Accept && after.holds_slot && !after.stopping
            &&& event is Accepted ==> step is Serve && !after.holds_slot && !after.stopping
            &&& event is AcceptFailed ==> step is GiveBack && !after.holds_slot && !after.stopping
            &&& event is Running ==> after == s && (s.holds_slot ==> step is Accept) && (
            !s.holds_slot ==> step is TakeSlot)
            &&& step is Stop <==> event is Shutdown || event is SlotsClosed
            &&& after.stopping <==> step is Stop
        }),
{
}

/// What a listener waits for can come, and nothing else can: a slot or the end
/// of them while it has none, a client or a failed accept while it has one.
pub proof fn awaited_events_can_happen(s: ListenState)
    requires
        !s.stopping,
    ensures
        can_happen(s, ListenEvent::SlotTaken) <==> !s.holds_slot,
        can_happen(s, ListenEvent::SlotsClosed) <==> !s.holds_slot,
        can_happen(s, ListenEvent::Accepted) <==> s.holds_slot,
        can_happen(s, ListenEvent::AcceptFailed) <==> s.holds_slot,
        can_happen(s, ListenEvent::Shutdown),
        can_happen(s, ListenEvent::Running),
{
}

} // verus!
