//! The daemon's loop.
//!
//! A [`Daemon`] decides what is done next; its owner does it and hands back what came of it.
//! One round sends the packets of a cycle one by one. The panel's input is taken in after
//! each packet and then until the cycle's time is over, so that a touch acts at once.
use crate::frames::decode;
use crate::panel::{pump, Applied, Request};
use vstd::prelude::*;

verus! {

/// How long a cycle takes, in seconds.
pub const UPDATE_INTERVAL_SECS: u64 = 1;

/// The pause before the port is looked for again, in milliseconds.
pub const RETRY_PAUSE_MS: u64 = 2000;

/// The pause after a packet, in milliseconds.
pub const SEND_PAUSE_MS: u64 = 20;

/// The pause while only input is taken in, in milliseconds.
pub const SERVICE_PAUSE_MS: u64 = 25;

/// Where the loop stands.
#[derive(Clone, Copy, Debug, PartialEq, Eq, Structural)]
pub enum Phase {
    /// Looking for the port.
    Locate,
    /// Opening the port that was found.
    Open,
    /// Waiting before the port is looked for again.
    Backoff,
    /// Beginning a cycle.
    Collect,
    /// Writing a packet.
    Send,
    /// Taking in what the panel sent meanwhile.
    Drain,
    /// Waiting after a packet.
    Pause,
    /// Looking whether the cycle's time is over.
    Check,
    /// Taking in what the panel sent, with no packet left.
    Service,
    /// Waiting, with no packet left.
    Rest,
    /// Closing the port, which failed.
    Close,
}

/// What is to be done next.
#[derive(Clone, Copy, Debug, PartialEq, Eq, Structural)]
pub enum Action {
    /// Look for the port.
    FindPort,
    /// Open the port that was found.
    OpenPort,
    /// Wait so many milliseconds.
    Sleep(u64),
    /// Begin a cycle: note the time, and build the packets.
    Collect,
    /// Write this packet.
    Send(usize),
    /// Read what the panel has sent.
    Receive,
    /// Close the port.
    Close,
    /// Look how long ago the cycle began.
    Clock,
}

/// What came of it.
#[derive(Debug)]
pub enum Event {
    /// A port was found, or not.
    Located(bool),
    /// The port was opened, or not.
    Opened(bool),
    Slept,
    /// So many packets are to be sent.
    Collected(usize),
    /// The packet was written, or not.
    Sent(bool),
    /// The panel has sent these bytes.
    Received(Vec<u8>),
    Closed,
    /// So many whole seconds ago the cycle began.
    Elapsed(u64),
}

/// Where the loop stands, and which packet of how many is next.
#[derive(Clone, Copy, Debug, PartialEq, Eq, Structural)]
pub struct Control {
    pub phase: Phase,
    pub next: usize,
    pub count: usize,
}

impl Control {
    /// The packet that is being sent is one of the packets.
    pub open spec fn wf(self) -> bool {
        self.phase is Send || self.phase is Drain || self.phase is Pause ==> self.next < self.count
    }

    pub open spec fn in_phase(self, phase: Phase) -> Control {
        Control { phase, ..self }
    }

    /// What is to be done next.
    pub open spec fn next_action(self) -> Action {
        match self.phase {
            Phase::Locate => Action::FindPort,
            Phase::Open => Action::OpenPort,
            Phase::Backoff => Action::Sleep(RETRY_PAUSE_MS),
            Phase::Collect => Action::Collect,
            Phase::Send => Action::Send(self.next),
            Phase::Drain => Action::Receive,
            Phase::Pause => Action::Sleep(SEND_PAUSE_MS),
            Phase::Check => Action::Clock,
            Phase::Service => Action::Receive,
            Phase::Rest => Action::Sleep(SERVICE_PAUSE_MS),
            Phase::Close => Action::Close,
        }
    }

    /// Where the loop stands after the event. An event that does not answer the action
    /// changes nothing.
    pub open spec fn after(self, e: Event) -> Control {
        match (self.phase, e) {
            (Phase::Locate, Event::Located(found)) => self.in_phase(
                if found {
                    Phase::Open
                } else {
                    Phase::Backoff
                },
            ),
            (Phase::Open, Event::Opened(ok)) => self.in_phase(
                if ok {
                    Phase::Collect
                } else {
                    Phase::Backoff
                },
            ),
            (Phase::Backoff, Event::Slept) => self.in_phase(Phase::Locate),
            (Phase::Collect, Event::Collected(count)) => Control {
                phase: if count > 0 {
                    Phase::Send
                } else {
                    Phase::Check
                },
                next: 0,
                count,
            },
            (Phase::Send, Event::Sent(ok)) => self.in_phase(
                if ok {
                    Phase::Drain
                } else {
                    Phase::Close
                },
            ),
            (Phase::Drain, Event::Received(_)) => self.in_phase(Phase::Pause),
            (Phase::Pause, Event::Slept) => if self.next + 1 < self.count {
                Control { phase: Phase::Send, next: (self.next + 1) as usize, ..self }
            } else {
                self.in_phase(Phase::Check)
            },
            (Phase::Check, Event::Elapsed(secs)) => self.in_phase(
                if secs < UPDATE_INTERVAL_SECS {
                    Phase::Service
                } else {
                    Phase::Collect
                },
            ),
            (Phase::Service, Event::Received(_)) => self.in_phase(Phase::Rest),
            (Phase::Rest, Event::Slept) => self.in_phase(Phase::Check),
            (Phase::Close, Event::Closed) => self.in_phase(Phase::Backoff),
            _ => self,
        }
    }

    /// The port is open.
    pub open spec fn is_open(self) -> bool {
        !(self.phase is Locate || self.phase is Open || self.phase is Backoff)
    }

    /// The event hands over what the panel has sent.
    pub open spec fn takes_input(self, e: Event) -> bool {
        (self.phase is Drain || self.phase is Service) && e is Received
    }

    /// The event says that the port was opened.
    pub open spec fn is_opened_by(self, e: Event) -> bool {
        self.phase is Open && (e matches Event::Opened(ok) && ok)
    }

    /// What is to be done next.
    fn action(&self) -> (r: Action)
        ensures
            r == self.next_action(),
    {
        match self.phase {
            Phase::Locate => Action::FindPort,
            Phase::Open => Action::OpenPort,
            Phase::Backoff => Action::Sleep(RETRY_PAUSE_MS),
            Phase::Collect => Action::Collect,
            Phase::Send => Action::Send(self.next),
            Phase::Drain => Action::Receive,
            Phase::Pause => Action::Sleep(SEND_PAUSE_MS),
            Phase::Check => Action::Clock,
            Phase::Service => Action::Receive,
            Phase::Rest => Action::Sleep(SERVICE_PAUSE_MS),
            Phase::Close => Action::Close,
        }
    }

    /// Goes on with what came of the action.
    fn advance(&mut self, event: &Event)
        requires
            old(self).wf(),
        ensures
            *final(self) == old(self).after(*event),
            final(self).wf(),
    {
        match (self.phase, event) {
            (Phase::Locate, Event::Located(found)) => {
                self.phase = if *found {
                    Phase::Open
                } else {
                    Phase::Backoff
                };
            },
            (Phase::Open, Event::Opened(ok)) => {
                self.phase = if *ok {
                    Phase::Collect
                } else {
                    Phase::Backoff
                };
            },
            (Phase::Backoff, Event::Slept) => {
                self.phase = Phase::Locate;
            },
            (Phase::Collect, Event::Collected(count)) => {
                self.next = 0;
                self.count = *count;
                self.phase = if *count > 0 {
                    Phase::Send
                } else {
                    Phase::Check
                };
            },
            (Phase::Send, Event::Sent(ok)) => {
                self.phase = if *ok {
                    Phase::Drain
                } else {
                    Phase::Close
                };
            },
            (Phase::Drain, Event::Received(_)) => {
                self.phase = Phase::Pause;
            },
            (Phase::Pause, Event::Slept) => {
                if self.next + 1 < self.count {
                    self.next = self.next + 1;
                    self.phase = Phase::Send;
                } else {
                    self.phase = Phase::Check;
                }
            },
            (Phase::Check, Event::Elapsed(secs)) => {
                self.phase = if *secs < UPDATE_INTERVAL_SECS {
                    Phase::Service
                } else {
                    Phase::Collect
                };
            },
            (Phase::Service, Event::Received(_)) => {
                self.phase = Phase::Rest;
            },
            (Phase::Rest, Event::Slept) => {
                self.phase = Phase::Check;
            },
            (Phase::Close, Event::Closed) => {
                self.phase = Phase::Backoff;
            },
            _ => {},
        }
    }
}

/// The daemon: where its loop stands, what of the panel's input is not a complete frame yet,
/// and what was applied last.
#[derive(Debug)]
pub struct Daemon {
    pub control: Control,
    pub input: Vec<u8>,
    pub applied: Applied,
}

impl Daemon {
    pub open spec fn wf(self) -> bool {
        self.control.wf()
    }

    /// The loop begins without a port.
    pub fn new() -> (r: Daemon)
        ensures
            r.wf(),
            r.control.phase == Phase::Locate,
            r.input@ == Seq::<u8>::empty(),
            r.applied.volume is None,
            r.applied.mode is None,
    {
        Daemon {
            control: Control { phase: Phase::Locate, next: 0, count: 0 },
            input: Vec::new(),
            applied: Applied::none(),
        }
    }

    /// What is to be done next.
    pub fn action(&self) -> (r: Action)
        ensures
            r == self.control.next_action(),
    {
        self.control.action()
    }

    /// Goes on with what came of the action, and returns what is to be applied. A port that
    /// was just opened begins with no input; what was applied last stays known.
    pub fn advance(&mut self, event: Event) -> (r: Vec<Request>)
        requires
            old(self).wf(),
        ensures
            final(self).wf(),
            final(self).control == old(self).control.after(event),
            match event {
                Event::Received(bytes) if old(self).control.takes_input(event) => {
                    let decoded = decode(old(self).input@ + bytes@);
                    &&& final(self).input@ == decoded.rest
                    &&& final(self).applied == old(self).applied.obeying(decoded.commands)
                    &&& r@ == old(self).applied.requests(decoded.commands)
                },
                _ => {
                    &&& final(self).input@ == (if old(self).control.is_opened_by(event) {
                        Seq::<u8>::empty()
                    } else {
                        old(self).input@
                    })
                    &&& final(self).applied == old(self).applied
                    &&& r@ == Seq::<Request>::empty()
                },
            },
    {
        let phase: Phase = self.control.phase;
        self.control.advance(&event);
        match (phase, event) {
            (Phase::Open, Event::Opened(true)) => {
                self.input = Vec::new();
                Vec::new()
            },
            (Phase::Drain, Event::Received(bytes)) => pump(
                &mut self.input,
                &bytes,
                &mut self.applied,
            ),
            (Phase::Service, Event::Received(bytes)) => pump(
                &mut self.input,
                &bytes,
                &mut self.applied,
            ),
            _ => Vec::new(),
        }
    }
}

/// After each packet the panel's input is taken in, before the next packet and before the
/// pause.
pub proof fn input_is_taken_in_after_each_packet(c: Control, bytes: Vec<u8>)
    requires
        c.phase == Phase::Send,
    ensures
        ({
            let sent: Control = c.after(Event::Sent(true));
            let drained: Control = sent.after(Event::Received(bytes));
            &&& c.next_action() == Action::Send(c.next)
            &&& sent.next_action() == Action::Receive
            &&& sent.takes_input(Event::Received(bytes))
            &&& drained.next_action() == Action::Sleep(SEND_PAUSE_MS)
        }),
{
}

/// The loop after `received.len()` packets were written and followed up.
pub open spec fn after_packets(c: Control, received: Seq<Vec<u8>>) -> Control
    decreases received.len(),
{
    if received.len() == 0 {
        c
    } else {
        after_packets(c, received.drop_last()).after(Event::Sent(true)).after(
            Event::Received(received.last()),
        ).after(Event::Slept)
    }
}

/// While writing succeeds, each packet of the cycle is sent once, in order, and then the
/// rest of the cycle's time passes.
pub proof fn packets_are_sent_in_order(c: Control, count: usize, received: Seq<Vec<u8>>)
    requires
        c.phase == Phase::Collect,
        0 < count,
        received.len() <= count,
    ensures
        after_packets(c.after(Event::Collected(count)), received).next_action() == (
        if received.len() < count {
            Action::Send(received.len() as usize)
        } else {
            Action::Clock
        }),
{
    lemma_after_packets(c.after(Event::Collected(count)), received);
}

proof fn lemma_after_packets(c: Control, received: Seq<Vec<u8>>)
    requires
        c.phase == Phase::Send,
        c.next == 0,
        0 < c.count,
        received.len() <= c.count,
    ensures
        after_packets(c, received) == (if received.len() < c.count {
            Control { next: received.len() as usize, ..c }
        } else {
            Control { phase: Phase::Check, next: (c.count - 1) as usize, ..c }
        }),
    decreases received.len(),
{
    if received.len() > 0 {
        lemma_after_packets(c, received.drop_last());
    }
}

/// A cycle that has time left takes in the panel's input again and again; the next one
/// begins as soon as a look at the clock finds the time over, and not before.
pub proof fn cycles_last_the_interval(c: Control, secs: u64, bytes: Vec<u8>)
    requires
        c.phase == Phase::Check,
    ensures
        ({
            let looked: Control = c.after(Event::Elapsed(secs));
            let served: Control = looked.after(Event::Received(bytes));
            if secs < UPDATE_INTERVAL_SECS {
                &&& looked.next_action() == Action::Receive
                &&& looked.takes_input(Event::Received(bytes))
                &&& served.next_action() == Action::Sleep(SERVICE_PAUSE_MS)
                &&& served.after(Event::Slept).next_action() == Action::Clock
            } else {
                looked.next_action() == Action::Collect
            }
        }),
{
}

/// A cycle begins only when the port was just opened, or when the one before has had its
/// time.
pub proof fn cycles_begin_when_due(c: Control, e: Event)
    requires
        c.next_action() != Action::Collect,
        c.after(e).next_action() == Action::Collect,
    ensures
        c.is_opened_by(e) || (c.phase == Phase::Check && (e matches Event::Elapsed(secs) && secs
            >= UPDATE_INTERVAL_SECS)),
{
}

/// A write that fails closes the port, and the port is looked for again after a pause.
pub proof fn failed_writes_reconnect(c: Control)
    requires
        c.phase == Phase::Send,
    ensures
        ({
            let failed: Control = c.after(Event::Sent(false));
            let closed: Control = failed.after(Event::Closed);
            &&& failed.next_action() == Action::Close
            &&& closed.next_action() == Action::Sleep(RETRY_PAUSE_MS)
            &&& closed.after(Event::Slept).next_action() == Action::FindPort
        }),
{
}

/// A port that is missing, or that cannot be opened, is looked for again after a pause.
pub proof fn missing_ports_are_looked_for_again(c: Control)
    ensures
        c.phase == Phase::Locate ==> {
            let missed: Control = c.after(Event::Located(false));
            &&& missed.next_action() == Action::Sleep(RETRY_PAUSE_MS)
            &&& missed.after(Event::Slept).next_action() == Action::FindPort
        },
        c.phase == Phase::Open ==> {
            let missed: Control = c.after(Event::Opened(false));
            &&& missed.next_action() == Action::Sleep(RETRY_PAUSE_MS)
            &&& missed.after(Event::Slept).next_action() == Action::FindPort
        },
{
}

/// The port is read, written and closed only while it is open, and opened only while it is
/// not. It becomes open by being opened, and stays so until it is closed.
pub proof fn port_is_used_while_open(c: Control, e: Event)
    ensures
        c.next_action() is Send || c.next_action() is Receive || c.next_action() is Close
            ==> c.is_open(),
        c.next_action() is FindPort || c.next_action() is OpenPort ==> !c.is_open(),
        !c.is_open() ==> c.after(e).is_open() == c.is_opened_by(e),
        c.is_open() ==> !c.after(e).is_open() == (c.phase == Phase::Close && e is Closed),
{
}

/// A port that was found is opened, and a port that was opened begins a cycle.
pub proof fn found_ports_are_opened(c: Control)
    ensures
        c.phase == Phase::Locate ==> c.after(Event::Located(true)).next_action()
            == Action::OpenPort,
        c.phase == Phase::Open ==> c.after(Event::Opened(true)).next_action() == Action::Collect,
{
}

/// The event is what the action asks for.
pub open spec fn answers(e: Event, action: Action) -> bool {
    match action {
        Action::FindPort => e is Located,
        Action::OpenPort => e is Opened,
        Action::Sleep(_) => e is Slept,
        Action::Collect => e is Collected,
        Action::Send(_) => e is Sent,
        Action::Receive => e is Received,
        Action::Close => e is Closed,
        Action::Clock => e is Elapsed,
    }
}

/// What is not asked for changes nothing, and what is asked for always goes on.
pub proof fn only_answers_count(c: Control, e: Event)
    ensures
        !answers(e, c.next_action()) ==> c.after(e) == c,
        answers(e, c.next_action()) ==> c.after(e).phase != c.phase,
{
}

/// The three pauses: two seconds before the port is looked for again, 20 milliseconds after
/// a packet, and 25 milliseconds while only input is taken in. A cycle takes one second.
pub proof fn pauses_are_short(c: Control, secs: u64)
    ensures
        c.phase == Phase::Backoff ==> c.next_action() == Action::Sleep(2000),
        c.phase == Phase::Pause ==> c.next_action() == Action::Sleep(20),
        c.phase == Phase::Rest ==> c.next_action() == Action::Sleep(25),
        c.phase == Phase::Check ==> (c.after(Event::Elapsed(secs)).next_action()
            == Action::Collect <==> secs >= 1),
{
}

/// A cycle without packets goes straight to the rest of its time.
pub proof fn empty_cycles_wait(c: Control)
    ensures
        c.phase == Phase::Collect ==> c.after(Event::Collected(0)).next_action() == Action::Clock,
{
}

/// A port that was just opened, and only that, begins without input; input is taken in only
/// where it was asked for.
pub proof fn input_begins_with_the_port(c: Control, e: Event, bytes: Vec<u8>)
    ensures
        c.is_opened_by(Event::Opened(true)) <==> c.phase == Phase::Open,
        !c.is_opened_by(Event::Opened(false)),
        c.is_opened_by(e) ==> e is Opened,
        c.takes_input(Event::Received(bytes)) <==> c.next_action() == Action::Receive,
        c.takes_input(e) ==> e is Received,
{
}

} // verus!
