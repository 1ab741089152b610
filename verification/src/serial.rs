//! The decisions of the serial handshake: send `want_config_id`, then read
//! frames until the radio answers with the matching `config_complete_id`.
//! The caller performs the reads, the clock and the protobuf decoding, and
//! hands each outcome to [`Handshake::step`].

use vstd::prelude::*;

use crate::serial_framing::{run, step, FrameReader, ReaderModel};

verus! {

/// How long the handshake may take, in nanoseconds.
pub const HANDSHAKE_TIMEOUT_NANOS: u128 = 30_000_000_000;

/// What a decoded `FromRadio` frame carried, as far as the handshake cares.
#[derive(Debug, PartialEq, Eq, Structural)]
pub enum RadioMessage {
    /// `config_complete_id` with this id.
    ConfigCompleteId(u32),
    /// Any other payload variant, or none.
    Other,
    /// The frame did not decode as a `FromRadio` message.
    Undecodable,
}

/// What happened since the last step.
#[derive(Debug, PartialEq, Eq, Structural)]
pub enum HandshakeEvent {
    /// The time since the handshake started, checked before each read.
    Clock(u128),
    /// A read gave this byte.
    Byte(u8),
    /// A read gave no bytes: the port was closed.
    EndOfStream,
    /// A read timed out without data.
    ReadTimedOut,
    /// A read failed otherwise.
    ReadFailed,
    /// The frame last handed out for decoding decoded to this.
    Message(RadioMessage),
}

/// Why the handshake failed.
#[derive(Debug, PartialEq, Eq, Structural)]
pub enum HandshakeFailure {
    /// No matching `config_complete_id` arrived in time.
    TimedOut,
    /// The serial port closed during the handshake.
    PortClosed,
    /// A read failed with an error other than a timeout.
    ReadFailed,
}

/// What the caller does next.
pub enum HandshakeAction {
    /// Go on: check the clock and read the next byte.
    Continue,
    /// Decode this frame payload as a `FromRadio` message and report it.
    Decode(Vec<u8>),
    /// The handshake is complete.
    Complete,
    /// The handshake failed.
    Fail(HandshakeFailure),
}

/// An action as plain values.
pub enum ActionModel {
    Continue,
    Decode(Seq<u8>),
    Complete,
    Fail(HandshakeFailure),
}

impl View for HandshakeAction {
    type V = ActionModel;

    open spec fn view(&self) -> ActionModel {
        match self {
            HandshakeAction::Continue => ActionModel::Continue,
            HandshakeAction::Decode(p) => ActionModel::Decode(p@),
            HandshakeAction::Complete => ActionModel::Complete,
            HandshakeAction::Fail(f) => ActionModel::Fail(*f),
        }
    }
}

/// One step of the handshake: the next state of the frame reader and what
/// to do. Past the timeout it fails; a closed port or a failed read fails;
/// a timed-out read goes on; a byte goes to the frame reader, and a frame it
/// completes is handed out for decoding; a decoded `config_complete_id`
/// completes the handshake exactly when it matches `config_id`, and every
/// other message is ignored.
pub open spec fn handshake_step(config_id: u32, m: ReaderModel, event: HandshakeEvent) -> (ReaderModel, ActionModel) {
    match event {
        HandshakeEvent::Clock(elapsed) => {
            if elapsed > HANDSHAKE_TIMEOUT_NANOS {
                (m, ActionModel::Fail(HandshakeFailure::TimedOut))
            } else {
                (m, ActionModel::Continue)
            }
        },
        HandshakeEvent::Byte(b) => {
            let (m2, out) = step(m, b);
            match out {
                Some(p) => (m2, ActionModel::Decode(p)),
                None => (m2, ActionModel::Continue),
            }
        },
        HandshakeEvent::EndOfStream => (m, ActionModel::Fail(HandshakeFailure::PortClosed)),
        HandshakeEvent::ReadTimedOut => (m, ActionModel::Continue),
        HandshakeEvent::ReadFailed => (m, ActionModel::Fail(HandshakeFailure::ReadFailed)),
        HandshakeEvent::Message(msg) => match msg {
            RadioMessage::ConfigCompleteId(id) => {
                if id == config_id {
                    (m, ActionModel::Complete)
                } else {
                    (m, ActionModel::Continue)
                }
            },
            _ => (m, ActionModel::Continue),
        },
    }
}

/// A random 32-bit value, different from call to call.
#[verifier::external_body]
fn random_u32() -> (r: u32) {
    rand::random::<u32>()
}

/// The state of a serial handshake.
pub struct Handshake {
    config_id: u32,
    reader: FrameReader,
}

impl Handshake {
    /// The id that the radio must echo in `config_complete_id`.
    pub closed spec fn spec_config_id(&self) -> u32 {
        self.config_id
    }

    /// The state of the frame reader.
    pub closed spec fn reader_model(&self) -> ReaderModel {
        self.reader@
    }

    /// The frame reader is in a state that a reader can be in.
    pub closed spec fn wf(&self) -> bool {
        self.reader.wf()
    }

    /// A handshake that waits for `config_complete_id == config_id`.
    pub fn new(config_id: u32) -> (h: Self)
        ensures
            h.wf(),
            h.spec_config_id() == config_id,
            h.reader_model() == ReaderModel::WaitStart1,
    {
        Handshake { config_id, reader: FrameReader::new() }
    }

    /// A handshake with a random `want_config_id`, as the firmware expects.
    pub fn start() -> (h: Self)
        ensures
            h.wf(),
            h.reader_model() == ReaderModel::WaitStart1,
    {
        Handshake::new(random_u32())
    }

    /// The id to send as `want_config_id`.
    pub fn config_id(&self) -> (id: u32)
        ensures
            id == self.spec_config_id(),
    {
        self.config_id
    }

    /// Take one event and say what to do next.
    pub fn step(&mut self, event: HandshakeEvent) -> (action: HandshakeAction)
        requires
            old(self).wf(),
        ensures
            final(self).wf(),
            final(self).spec_config_id() == old(self).spec_config_id(),
            (final(self).reader_model(), action@) == handshake_step(
                old(self).spec_config_id(),
                old(self).reader_model(),
                event,
            ),
    {
        match event {
            HandshakeEvent::Clock(elapsed) => {
                if elapsed > HANDSHAKE_TIMEOUT_NANOS {
                    HandshakeAction::Fail(HandshakeFailure::TimedOut)
                } else {
                    HandshakeAction::Continue
                }
            },
            HandshakeEvent::Byte(b) => match self.reader.feed(b) {
                Some(p) => HandshakeAction::Decode(p),
                None => HandshakeAction::Continue,
            },
            HandshakeEvent::EndOfStream => HandshakeAction::Fail(HandshakeFailure::PortClosed),
            HandshakeEvent::ReadTimedOut => HandshakeAction::Continue,
            HandshakeEvent::ReadFailed => HandshakeAction::Fail(HandshakeFailure::ReadFailed),
            HandshakeEvent::Message(msg) => match msg {
                RadioMessage::ConfigCompleteId(id) => {
                    if id == self.config_id {
                        HandshakeAction::Complete
                    } else {
                        HandshakeAction::Continue
                    }
                },
                _ => HandshakeAction::Continue,
            },
        }
    }
}

/// The handshake completes only on a `config_complete_id` that matches the
/// id it asked for; no other event completes it.
pub proof fn lemma_handshake_completes_only_on_match(config_id: u32, m: ReaderModel, event: HandshakeEvent)
    ensures
        handshake_step(config_id, m, event).1 is Complete <==> event == HandshakeEvent::Message(
            RadioMessage::ConfigCompleteId(config_id),
        ),
{
}

/// Only bytes move the frame reader: the clock, read outcomes without data
/// and decoded messages leave it exactly where it was, so a frame whose bytes
/// arrive between clock checks is read as if the bytes came alone.
pub proof fn lemma_handshake_reader_moves_only_on_bytes(config_id: u32, m: ReaderModel, event: HandshakeEvent)
    ensures
        !(event is Byte) ==> handshake_step(config_id, m, event).0 == m,
        event matches HandshakeEvent::Byte(b) ==> handshake_step(config_id, m, event).0 == step(m, b).0,
{
}

/// A byte hands out a frame for decoding exactly when the frame reader
/// completes one with it, and then hands out that frame's payload.
pub proof fn lemma_handshake_byte_decodes_frames(config_id: u32, m: ReaderModel, b: u8)
    ensures
        handshake_step(config_id, m, HandshakeEvent::Byte(b)).1 is Decode <==> step(m, b).1 is Some,
        step(m, b).1 matches Some(p) ==> handshake_step(config_id, m, HandshakeEvent::Byte(b)).1
            == ActionModel::Decode(p),
{
}


/// The events that the caller sends while bytes arrive one read at a time,
/// with the clock checked before each read: `Clock(times[i])`, then
/// `Byte(bytes[i])`, for each `i`.
pub open spec fn clocked_bytes(times: Seq<u128>, bytes: Seq<u8>) -> Seq<HandshakeEvent>
    decreases bytes.len(),
{
    if bytes.len() == 0 || times.len() == 0 {
        Seq::empty()
    } else {
        clocked_bytes(times.drop_last(), bytes.drop_last()) + seq![
            HandshakeEvent::Clock(times.last()),
            HandshakeEvent::Byte(bytes.last()),
        ]
    }
}

/// Events taken one after the other: the final state of the frame reader
/// and the actions, in order.
pub open spec fn handshake_run(config_id: u32, m: ReaderModel, events: Seq<HandshakeEvent>) -> (
    ReaderModel,
    Seq<ActionModel>,
)
    decreases events.len(),
{
    if events.len() == 0 {
        (m, Seq::empty())
    } else {
        let (m1, acts) = handshake_run(config_id, m, events.drop_last());
        let (m2, a) = handshake_step(config_id, m1, events.last());
        (m2, acts.push(a))
    }
}

/// The payloads that a run of actions hands out for decoding, in order.
pub open spec fn decoded(acts: Seq<ActionModel>) -> Seq<Seq<u8>>
    decreases acts.len(),
{
    if acts.len() == 0 {
        Seq::empty()
    } else {
        let d = decoded(acts.drop_last());
        match acts.last() {
            ActionModel::Decode(p) => d.push(p),
            _ => d,
        }
    }
}

/// Bytes that arrive with the clock checked in time before each read are
/// read as if the bytes came alone: the frame reader ends where feeding the
/// bytes alone leaves it, the frames handed out for decoding are exactly the
/// frames in the bytes, in order, and the handshake neither fails nor
/// completes on the way.
pub proof fn lemma_clocked_bytes_read_as_bytes(
    config_id: u32,
    m: ReaderModel,
    times: Seq<u128>,
    bytes: Seq<u8>,
)
    requires
        times.len() == bytes.len(),
        forall|i: int| 0 <= i < times.len() ==> #[trigger] times[i] <= HANDSHAKE_TIMEOUT_NANOS,
    ensures
        handshake_run(config_id, m, clocked_bytes(times, bytes)).0 == run(m, bytes).0,
        decoded(handshake_run(config_id, m, clocked_bytes(times, bytes)).1) == run(m, bytes).1,
        forall|i: int|
            0 <= i < handshake_run(config_id, m, clocked_bytes(times, bytes)).1.len() ==> {
                let a = #[trigger] handshake_run(config_id, m, clocked_bytes(times, bytes)).1[i];
                a is Continue || a is Decode
            },
    decreases bytes.len(),
{
    if bytes.len() > 0 {
        let ts = times.drop_last();
        let bs = bytes.drop_last();
        assert forall|i: int| 0 <= i < ts.len() implies #[trigger] ts[i] <= HANDSHAKE_TIMEOUT_NANOS by {
            assert(ts[i] == times[i]);
        }
        lemma_clocked_bytes_read_as_bytes(config_id, m, ts, bs);
        let e0 = clocked_bytes(ts, bs);
        let t = times.last();
        let b = bytes.last();
        assert(t == times[times.len() - 1]);
        let e1 = e0.push(HandshakeEvent::Clock(t));
        let e2 = clocked_bytes(times, bytes);
        assert(e2 =~= e1.push(HandshakeEvent::Byte(b)));
        assert(e2.drop_last() =~= e1);
        assert(e1.drop_last() =~= e0);
        let (m0, acts0) = handshake_run(config_id, m, e0);
        let acts1 = acts0.push(ActionModel::Continue);
        assert(handshake_run(config_id, m, e1) == (m0, acts1));
        let a = handshake_step(config_id, m0, HandshakeEvent::Byte(b)).1;
        let acts2 = acts1.push(a);
        assert(handshake_run(config_id, m, e2) == (step(m0, b).0, acts2));
        assert(acts1.drop_last() =~= acts0);
        assert(acts2.drop_last() =~= acts1);
        assert(decoded(acts1) == decoded(acts0));
        assert forall|i: int| 0 <= i < acts2.len() implies #[trigger] acts2[i] is Continue
            || acts2[i] is Decode by {
            if i < acts0.len() {
                assert(acts2[i] == acts0[i]);
                assert(handshake_run(config_id, m, e0).1[i] == acts0[i]);
            }
        }
    }
}

} // verus!
