//! What the panel's touch screen asks for.
use crate::frames::{
    command_frames_are_decoded, command_views, decode, device_frame, parse_device_frames,
    pieces_decode_as_the_whole, rest_is_the_end_of_the_buffer, Command,
};
use vstd::prelude::*;

verus! {

/// The command that sets the volume, 0 to 100.
pub const DEV_CMD_VOLUME: u8 = 0x61;

/// The command that sets the performance mode, 1 to 3.
pub const DEV_CMD_MODE: u8 = 0x62;

/// What was applied last.
#[derive(Clone, Copy, Debug, PartialEq, Eq, Structural)]
pub struct Applied {
    pub volume: Option<u8>,
    pub mode: Option<u8>,
}

/// What is to be applied.
#[derive(Clone, Copy, Debug, PartialEq, Eq, Structural)]
pub enum Request {
    /// Set the volume to this percentage.
    Volume(u8),
    /// Set the performance mode: 1 saves energy, 2 is balanced, 3 performs.
    Mode(u8),
}

/// What a command asks for: a volume, or one of the three modes.
pub open spec fn request_of(c: Command) -> Option<Request> {
    if c.1.len() == 0 {
        None
    } else if c.0 == DEV_CMD_VOLUME {
        Some(Request::Volume(c.1[0]))
    } else if c.0 == DEV_CMD_MODE && 1 <= c.1[0] <= 3 {
        Some(Request::Mode(c.1[0]))
    } else {
        None
    }
}

impl Applied {
    /// The request asks for what was applied last.
    pub open spec fn has(self, q: Request) -> bool {
        match q {
            Request::Volume(v) => self.volume == Some(v),
            Request::Mode(m) => self.mode == Some(m),
        }
    }

    /// What was applied last, once the request is.
    pub open spec fn with(self, q: Request) -> Applied {
        match q {
            Request::Volume(v) => Applied { volume: Some(v), ..self },
            Request::Mode(m) => Applied { mode: Some(m), ..self },
        }
    }

    /// What was applied last, once the commands are obeyed.
    pub open spec fn obeying(self, cs: Seq<Command>) -> Applied
        decreases cs.len(),
    {
        if cs.len() == 0 {
            self
        } else {
            let before: Applied = self.obeying(cs.drop_last());
            match request_of(cs.last()) {
                Some(q) => before.with(q),
                None => before,
            }
        }
    }

    /// What obeying the commands takes, in order. A request for what was applied last takes
    /// nothing.
    pub open spec fn requests(self, cs: Seq<Command>) -> Seq<Request>
        decreases cs.len(),
    {
        if cs.len() == 0 {
            seq![]
        } else {
            let before: Seq<Request> = self.requests(cs.drop_last());
            match request_of(cs.last()) {
                Some(q) => if self.obeying(cs.drop_last()).has(q) {
                    before
                } else {
                    before.push(q)
                },
                None => before,
            }
        }
    }

    /// Nothing was applied yet.
    pub fn none() -> (r: Applied)
        ensures
            r.volume is None,
            r.mode is None,
    {
        Applied { volume: None, mode: None }
    }

    /// Whether the request asks for something new, which is then the last applied.
    fn renew(&mut self, q: Request) -> (r: bool)
        ensures
            r == !old(self).has(q),
            *final(self) == old(self).with(q),
    {
        match q {
            Request::Volume(v) => {
                let same: bool = match self.volume {
                    Some(w) => v == w,
                    None => false,
                };
                self.volume = Some(v);
                !same
            },
            Request::Mode(m) => {
                let same: bool = match self.mode {
                    Some(n) => m == n,
                    None => false,
                };
                self.mode = Some(m);
                !same
            },
        }
    }
}

/// What a command asks for.
fn read_request(cmd: u8, values: &Vec<u8>) -> (r: Option<Request>)
    ensures
        r == request_of((cmd, values@)),
{
    if values.len() == 0 {
        None
    } else if cmd == DEV_CMD_VOLUME {
        Some(Request::Volume(values[0]))
    } else if cmd == DEV_CMD_MODE && 1 <= values[0] && values[0] <= 3 {
        Some(Request::Mode(values[0]))
    } else {
        None
    }
}

/// Takes in the bytes that the panel has sent since the last time, and returns what is to be
/// applied. `input` holds what is not a complete frame yet.
pub fn pump(input: &mut Vec<u8>, received: &Vec<u8>, applied: &mut Applied) -> (r: Vec<Request>)
    ensures
        final(input)@ == decode(old(input)@ + received@).rest,
        *final(applied) == old(applied).obeying(decode(old(input)@ + received@).commands),
        r@ == old(applied).requests(decode(old(input)@ + received@).commands),
{
    let ghost start: Seq<u8> = input@;
    let mut n: usize = 0;
    assert(start + received@.take(0) == start);
    while n < received.len()
        invariant
            n <= received.len(),
            input@ == start + received@.take(n as int),
        decreases received.len() - n,
    {
        input.push(received[n]);
        assert(received@.take(n + 1) == received@.take(n as int).push(received[n as int]));
        n = n + 1;
    }
    assert(received@.take(n as int) == received@);
    let commands: Vec<(u8, Vec<u8>)> = parse_device_frames(input);
    let ghost cs: Seq<Command> = command_views(commands@);
    let ghost first: Applied = *applied;
    let mut r: Vec<Request> = Vec::new();
    let mut i: usize = 0;
    assert(cs.take(0).len() == 0);
    while i < commands.len()
        invariant
            i <= commands.len(),
            cs == command_views(commands@),
            *applied == first.obeying(cs.take(i as int)),
            r@ == first.requests(cs.take(i as int)),
        decreases commands.len() - i,
    {
        proof {
            assert(cs.take(i + 1).drop_last() == cs.take(i as int));
            assert(cs.take(i + 1).last() == (commands[i as int].0, commands[i as int].1@));
        }
        match read_request(commands[i].0, &commands[i].1) {
            Some(q) => {
                if applied.renew(q) {
                    r.push(q);
                }
            },
            None => {},
        }
        i = i + 1;
    }
    assert(cs.take(i as int) == cs);
    r
}

proof fn lemma_obeying_in_turn(a: Applied, x: Seq<Command>, y: Seq<Command>)
    ensures
        a.obeying(x + y) == a.obeying(x).obeying(y),
        a.requests(x + y) == a.requests(x) + a.obeying(x).requests(y),
    decreases y.len(),
{
    if y.len() == 0 {
        assert(x + y == x);
    } else {
        lemma_obeying_in_turn(a, x, y.drop_last());
        assert((x + y).drop_last() == x + y.drop_last());
        assert((x + y).last() == y.last());
    }
}

/// However the panel's bytes are cut into pieces, the same requests are made in the same
/// order.
pub proof fn pieces_ask_for_the_same(a: Applied, input: Seq<u8>, x: Seq<u8>, y: Seq<u8>)
    ensures
        ({
            let first: Seq<Command> = decode(input + x).commands;
            let second: Seq<Command> = decode(decode(input + x).rest + y).commands;
            let whole: Seq<Command> = decode(input + (x + y)).commands;
            &&& a.requests(whole) == a.requests(first) + a.obeying(first).requests(second)
            &&& a.obeying(whole) == a.obeying(first).obeying(second)
            &&& decode(input + (x + y)).rest == decode(decode(input + x).rest + y).rest
        }),
{
    assert(input + (x + y) == (input + x) + y);
    pieces_decode_as_the_whole(input + x, y);
    lemma_obeying_in_turn(
        a,
        decode(input + x).commands,
        decode(decode(input + x).rest + y).commands,
    );
}

/// A command that asks again for what was applied last makes no request: dragging the slider
/// acts only where the value changes.
pub proof fn repeats_make_no_request(a: Applied, cs: Seq<Command>, c: Command)
    requires
        request_of(c) matches Some(q) ==> a.obeying(cs).has(q),
    ensures
        a.requests(cs.push(c)) == a.requests(cs),
        a.obeying(cs.push(c)) == a.obeying(cs),
{
    assert(cs.push(c).drop_last() == cs);
}

/// A command that asks for something else makes exactly that request.
pub proof fn changes_make_a_request(a: Applied, cs: Seq<Command>, c: Command, q: Request)
    requires
        request_of(c) == Some(q),
        !a.obeying(cs).has(q),
    ensures
        a.requests(cs.push(c)) == a.requests(cs).push(q),
        a.obeying(cs.push(c)).has(q),
{
    assert(cs.push(c).drop_last() == cs);
}

/// A complete frame with the command `0x61` sets the volume to its first value, and one with
/// the command `0x62` sets the mode, where that is 1, 2 or 3: once, unless it was applied last
/// already. Any other frame asks for nothing.
pub proof fn frames_ask_for_their_value(a: Applied, cmd: u8, values: Seq<u8>)
    requires
        1 <= values.len() <= 57,
    ensures
        ({
            let bytes: Seq<u8> = seq![0xAA, (values.len() + 5) as u8, cmd] + values + seq![
                0xCC,
                0x33,
                0xC3,
                0x3C,
            ];
            let v: u8 = values[0];
            let commands: Seq<Command> = decode(bytes).commands;
            &&& decode(bytes).rest == Seq::<u8>::empty()
            &&& cmd == 0x61 && a.volume != Some(v) ==> a.requests(commands) == seq![
                Request::Volume(v),
            ]
            &&& cmd == 0x61 && a.volume == Some(v) ==> a.requests(commands) == Seq::<
                Request,
            >::empty()
            &&& cmd == 0x61 ==> a.obeying(commands) == (Applied { volume: Some(v), mode: a.mode })
            &&& cmd == 0x62 && 1 <= v <= 3 && a.mode != Some(v) ==> a.requests(commands) == seq![
                Request::Mode(v),
            ]
            &&& cmd == 0x62 && a.mode == Some(v) ==> a.requests(commands) == Seq::<Request>::empty()
            &&& cmd == 0x62 && 1 <= v <= 3 ==> a.obeying(commands) == (Applied {
                volume: a.volume,
                mode: Some(v),
            })
            &&& cmd == 0x62 && !(1 <= v <= 3) ==> a.requests(commands) == Seq::<Request>::empty()
                && a.obeying(commands) == a
            &&& cmd != 0x61 && cmd != 0x62 ==> a.requests(commands) == Seq::<Request>::empty()
                && a.obeying(commands) == a
        }),
{
    let none: Seq<u8> = seq![];
    let f: Seq<u8> = device_frame(cmd, values);
    command_frames_are_decoded(cmd, values, none);
    assert(f + none == f);
    assert(f == seq![0xAA, (values.len() + 5) as u8, cmd] + values + seq![
        0xCC,
        0x33,
        0xC3,
        0x3C,
    ]);
    rest_is_the_end_of_the_buffer(none);
    assert(decode(none).commands == Seq::<Command>::empty());
    let cs: Seq<Command> = decode(f).commands;
    assert(cs == seq![(cmd, values)]);
    assert(cs.drop_last() == Seq::<Command>::empty());
    assert(cs.last() == (cmd, values));
    reveal_with_fuel(Applied::obeying, 2);
    reveal_with_fuel(Applied::requests, 2);
    assert(Seq::<Request>::empty().push(Request::Volume(values[0])) == seq![
        Request::Volume(values[0]),
    ]);
    assert(Seq::<Request>::empty().push(Request::Mode(values[0])) == seq![
        Request::Mode(values[0]),
    ]);
}

/// The bytes of the volume slider and of the mode button, as the panel sends them.
pub proof fn touches_are_applied(a: Applied, v: u8, m: u8)
    requires
        1 <= m <= 3,
    ensures
        ({
            let slider: Seq<u8> = seq![0xAA, 0x06, 0x61, v, 0xCC, 0x33, 0xC3, 0x3C];
            let button: Seq<u8> = seq![0xAA, 0x06, 0x62, m, 0xCC, 0x33, 0xC3, 0x3C];
            &&& a.volume != Some(v) ==> a.requests(decode(slider).commands) == seq![
                Request::Volume(v),
            ]
            &&& a.obeying(decode(slider).commands).volume == Some(v)
            &&& a.mode != Some(m) ==> a.requests(decode(button).commands) == seq![Request::Mode(m)]
            &&& a.obeying(decode(button).commands).mode == Some(m)
        }),
{
    let slider: Seq<u8> = seq![0xAA, 0x06, 0x61, v, 0xCC, 0x33, 0xC3, 0x3C];
    let button: Seq<u8> = seq![0xAA, 0x06, 0x62, m, 0xCC, 0x33, 0xC3, 0x3C];
    frames_ask_for_their_value(a, 0x61, seq![v]);
    frames_ask_for_their_value(a, 0x62, seq![m]);
    assert(slider == seq![0xAA, 0x06, 0x61u8] + seq![v] + seq![0xCC, 0x33, 0xC3, 0x3Cu8]);
    assert(button == seq![0xAA, 0x06, 0x62u8] + seq![m] + seq![0xCC, 0x33, 0xC3, 0x3Cu8]);
}

/// Commands are obeyed one after the other: a volume or a mode that differs from the last one
/// makes one more request, and becomes the last one.
pub proof fn commands_are_obeyed_in_turn(a: Applied, cs: Seq<Command>, cmd: u8, values: Seq<u8>)
    requires
        values.len() > 0,
    ensures
        ({
            let before: Applied = a.obeying(cs);
            let after: Applied = a.obeying(cs.push((cmd, values)));
            let asked: Seq<Request> = a.requests(cs);
            let asks: Seq<Request> = a.requests(cs.push((cmd, values)));
            let v: u8 = values[0];
            &&& cmd == 0x61 ==> after == (Applied { volume: Some(v), mode: before.mode })
            &&& cmd == 0x61 && before.volume != Some(v) ==> asks == asked.push(Request::Volume(v))
            &&& cmd == 0x61 && before.volume == Some(v) ==> asks == asked
            &&& cmd == 0x62 && 1 <= v <= 3 ==> after == (Applied {
                volume: before.volume,
                mode: Some(v),
            })
            &&& cmd == 0x62 && 1 <= v <= 3 && before.mode != Some(v) ==> asks == asked.push(
                Request::Mode(v),
            )
            &&& cmd == 0x62 && 1 <= v <= 3 && before.mode == Some(v) ==> asks == asked
            &&& !(cmd == 0x61 || (cmd == 0x62 && 1 <= v <= 3)) ==> after == before && asks == asked
            &&& a.obeying(Seq::<Command>::empty()) == a
            &&& a.requests(Seq::<Command>::empty()) == Seq::<Request>::empty()
        }),
{
    assert(cs.push((cmd, values)).drop_last() == cs);
    assert(cs.push((cmd, values)).last() == (cmd, values));
}

} // verus!
