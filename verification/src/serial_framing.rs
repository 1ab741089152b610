//! The Meshtastic serial stream framing: `[0x94, 0xC3, len_hi, len_lo, payload...]`.

use vstd::prelude::*;

verus! {

/// First byte of a frame header.
pub const START1: u8 = 0x94;

/// Second byte of a frame header.
pub const START2: u8 = 0xC3;

/// Length of the frame header in bytes.
pub const HEADER_LEN: usize = 4;

/// Largest payload that a frame may announce.
pub const MAX_PACKET_SIZE: usize = 512;

/// The parser's position in the byte stream.
enum State {
    WaitStart1,
    WaitStart2,
    ReadLenHigh,
    ReadLenLow(u8),
    ReadPayload { expected: usize },
}

/// What a reader is doing, as seen from outside: the state of the header
/// automaton, and while a payload is being read, its announced length and the
/// bytes gathered so far.
pub enum ReaderModel {
    WaitStart1,
    WaitStart2,
    ReadLenHigh,
    ReadLenLow(u8),
    ReadPayload(nat, Seq<u8>),
}

/// A model that a reader can be in: a payload being read is announced with
/// 1 to `MAX_PACKET_SIZE` bytes and is not complete yet.
pub open spec fn model_ok(m: ReaderModel) -> bool {
    match m {
        ReaderModel::ReadPayload(n, got) => 0 < n <= MAX_PACKET_SIZE && got.len() < n,
        _ => true,
    }
}

/// The reader is idle: it waits for the start of a header.
pub open spec fn is_idle(m: ReaderModel) -> bool {
    m is WaitStart1 || m is WaitStart2
}

/// The length announced by the two length bytes of a header.
pub open spec fn announced_len(high: u8, low: u8) -> nat {
    (high as nat) * 256 + (low as nat)
}

/// One byte of input: the next model, and the payload of a frame that this
/// byte completes.
pub open spec fn step(m: ReaderModel, byte: u8) -> (ReaderModel, Option<Seq<u8>>) {
    match m {
        ReaderModel::WaitStart1 => {
            if byte == START1 {
                (ReaderModel::WaitStart2, None)
            } else {
                (ReaderModel::WaitStart1, None)
            }
        },
        ReaderModel::WaitStart2 => {
            if byte == START2 {
                (ReaderModel::ReadLenHigh, None)
            } else if byte == START1 {
                (ReaderModel::WaitStart2, None)
            } else {
                (ReaderModel::WaitStart1, None)
            }
        },
        ReaderModel::ReadLenHigh => (ReaderModel::ReadLenLow(byte), None),
        ReaderModel::ReadLenLow(high) => {
            let len = announced_len(high, byte);
            if len > MAX_PACKET_SIZE {
                (ReaderModel::WaitStart1, None)
            } else if len == 0 {
                (ReaderModel::WaitStart1, Some(Seq::<u8>::empty()))
            } else {
                (ReaderModel::ReadPayload(len, Seq::<u8>::empty()), None)
            }
        },
        ReaderModel::ReadPayload(n, got) => {
            let g = got.push(byte);
            if g.len() >= n {
                (ReaderModel::WaitStart1, Some(g))
            } else {
                (ReaderModel::ReadPayload(n, g), None)
            }
        },
    }
}

/// A sequence of bytes fed one after the other: the final model and the
/// payloads of the frames completed, in order.
pub open spec fn run(m: ReaderModel, bytes: Seq<u8>) -> (ReaderModel, Seq<Seq<u8>>)
    decreases bytes.len(),
{
    if bytes.len() == 0 {
        (m, Seq::<Seq<u8>>::empty())
    } else {
        let (m1, frames) = run(m, bytes.drop_last());
        let (m2, out) = step(m1, bytes.last());
        match out {
            Some(f) => (m2, frames.push(f)),
            None => (m2, frames),
        }
    }
}

/// The bytes of a frame that carries `payload`: the two start bytes, the
/// payload length in big-endian order (its low 16 bits), then the payload.
pub open spec fn frame_bytes(payload: Seq<u8>) -> Seq<u8> {
    let len = payload.len();
    seq![START1, START2, ((len / 256) % 256) as u8, (len % 256) as u8] + payload
}

/// The payload of a completed frame, as a sequence of bytes.
pub open spec fn frame_view(r: Option<Vec<u8>>) -> Option<Seq<u8>> {
    match r {
        Some(v) => Some(v@),
        None => None,
    }
}

/// Incremental parser of the serial frame stream.
pub struct FrameReader {
    state: State,
    buf: Vec<u8>,
}

impl View for FrameReader {
    type V = ReaderModel;

    closed spec fn view(&self) -> ReaderModel {
        match self.state {
            State::WaitStart1 => ReaderModel::WaitStart1,
            State::WaitStart2 => ReaderModel::WaitStart2,
            State::ReadLenHigh => ReaderModel::ReadLenHigh,
            State::ReadLenLow(h) => ReaderModel::ReadLenLow(h),
            State::ReadPayload { expected } => ReaderModel::ReadPayload(expected as nat, self.buf@),
        }
    }
}

impl FrameReader {
    /// The reader's model is one that a reader can be in.
    pub open spec fn wf(&self) -> bool {
        model_ok(self@)
    }

    /// A reader that waits for the first start byte.
    pub fn new() -> (r: Self)
        ensures
            r.wf(),
            r@ == ReaderModel::WaitStart1,
    {
        FrameReader { state: State::WaitStart1, buf: Vec::with_capacity(MAX_PACKET_SIZE + HEADER_LEN) }
    }

    /// Feed a single byte into the frame parser.
    /// Returns `Some(payload)` when a complete frame has been received.
    pub fn feed(&mut self, byte: u8) -> (r: Option<Vec<u8>>)
        requires
            old(self).wf(),
        ensures
            final(self).wf(),
            (final(self)@, frame_view(r)) == step(old(self)@, byte),
            r matches Some(p) ==> p@.len() <= MAX_PACKET_SIZE,
    {
        match self.state {
            State::WaitStart1 => {
                if byte == START1 {
                    self.state = State::WaitStart2;
                }
                None
            },
            State::WaitStart2 => {
                if byte == START2 {
                    self.state = State::ReadLenHigh;
                } else if byte == START1 {
                    // another START1: still waiting for START2
                } else {
                    self.state = State::WaitStart1;
                }
                None
            },
            State::ReadLenHigh => {
                self.state = State::ReadLenLow(byte);
                None
            },
            State::ReadLenLow(high) => {
                let len: usize = (high as usize) * 256 + (byte as usize);
                if len > MAX_PACKET_SIZE {
                    self.state = State::WaitStart1;
                    return None;
                }
                if len == 0 {
                    self.state = State::WaitStart1;
                    return Some(Vec::new());
                }
                self.buf.clear();
                self.state = State::ReadPayload { expected: len };
                None
            },
            State::ReadPayload { expected } => {
                self.buf.push(byte);
                if self.buf.len() >= expected {
                    self.state = State::WaitStart1;
                    let mut out: Vec<u8> = Vec::new();
                    std::mem::swap(&mut out, &mut self.buf);
                    Some(out)
                } else {
                    None
                }
            },
        }
    }

    /// Feed a slice of bytes, returning all complete frames found.
    pub fn feed_bytes(&mut self, data: &[u8]) -> (frames: Vec<Vec<u8>>)
        requires
            old(self).wf(),
        ensures
            final(self).wf(),
            final(self)@ == run(old(self)@, data@).0,
            frames@.len() == run(old(self)@, data@).1.len(),
            forall|i: int|
                0 <= i < frames@.len() ==> #[trigger] frames@[i]@ == run(old(self)@, data@).1[i],
            forall|i: int| 0 <= i < frames@.len() ==> #[trigger] frames@[i]@.len() <= MAX_PACKET_SIZE,
    {
        let ghost m0 = self@;
        let mut frames: Vec<Vec<u8>> = Vec::new();
        let mut i: usize = 0;
        while i < data.len()
            invariant
                0 <= i <= data@.len(),
                self.wf(),
                self@ == run(m0, data@.take(i as int)).0,
                frames@.len() == run(m0, data@.take(i as int)).1.len(),
                forall|k: int|
                    0 <= k < frames@.len() ==> #[trigger] frames@[k]@ == run(
                        m0,
                        data@.take(i as int),
                    ).1[k],
                forall|k: int| 0 <= k < frames@.len() ==> #[trigger] frames@[k]@.len() <= MAX_PACKET_SIZE,
            decreases data@.len() - i,
        {
            let ghost prefix = data@.take(i as int);
            let ghost next = data@.take(i + 1);
            assert(next.drop_last() =~= prefix);
            assert(next.last() == data@[i as int]);
            let byte = data[i];
            if let Some(payload) = self.feed(byte) {
                frames.push(payload);
            }
            i = i + 1;
        }
        assert(data@.take(data@.len() as int) =~= data@);
        frames
    }
}

/// Wrap a payload in the serial framing header: `[START1, START2, len_hi, len_lo, payload...]`.
pub fn frame_payload(payload: &[u8]) -> (out: Vec<u8>)
    ensures
        out@ == frame_bytes(payload@),
{
    let len = payload.len();
    let mut out: Vec<u8> = Vec::new();
    out.push(START1);
    out.push(START2);
    out.push(((len / 256) % 256) as u8);
    out.push((len % 256) as u8);
    out.extend_from_slice(payload);
    assert(out@ =~= frame_bytes(payload@));
    out
}

/// The bytes of several frames, one after the other.
pub open spec fn frames_bytes(payloads: Seq<Seq<u8>>) -> Seq<u8>
    decreases payloads.len(),
{
    if payloads.len() == 0 {
        Seq::<u8>::empty()
    } else {
        frames_bytes(payloads.drop_last()) + frame_bytes(payloads.last())
    }
}

/// Feeding one byte.
proof fn lemma_run_one(m: ReaderModel, b: u8)
    ensures
        run(m, seq![b]).0 == step(m, b).0,
        run(m, seq![b]).1 == (match step(m, b).1 {
            Some(f) => seq![f],
            None => Seq::<Seq<u8>>::empty(),
        }),
{
    assert(seq![b].drop_last() =~= Seq::<u8>::empty());
    assert(seq![b].last() == b);
    assert(run(m, Seq::<u8>::empty()) == (m, Seq::<Seq<u8>>::empty()));
    assert(Seq::<Seq<u8>>::empty().push(step(m, b).1->0) =~= seq![step(m, b).1->0]);
}

/// Feeding `a` and then `b` to a reader gives the same final model, and the
/// same frames in the same order, as feeding `a + b` at once.
pub proof fn lemma_run_append(m: ReaderModel, a: Seq<u8>, b: Seq<u8>)
    ensures
        run(m, a + b).0 == run(run(m, a).0, b).0,
        run(m, a + b).1 == run(m, a).1 + run(run(m, a).0, b).1,
    decreases b.len(),
{
    if b.len() == 0 {
        assert(a + b =~= a);
        assert(run(m, a).1 + Seq::<Seq<u8>>::empty() =~= run(m, a).1);
    } else {
        lemma_run_append(m, a, b.drop_last());
        assert((a + b).drop_last() =~= a + b.drop_last());
        assert((a + b).last() == b.last());
        let mid = run(run(m, a).0, b.drop_last());
        let (m2, out) = step(mid.0, b.last());
        match out {
            Some(f) => {
                assert(run(m, a).1 + mid.1.push(f) =~= (run(m, a).1 + mid.1).push(f));
            },
            None => {},
        }
    }
}

/// While a payload is being read, the bytes that do not complete it are
/// gathered and no frame comes out; the byte that completes it gives out
/// exactly the announced number of bytes and returns the reader to waiting.
proof fn lemma_run_payload(n: nat, got: Seq<u8>, r: Seq<u8>)
    requires
        got.len() + r.len() <= n,
    ensures
        got.len() + r.len() < n ==> run(ReaderModel::ReadPayload(n, got), r) == (
            ReaderModel::ReadPayload(n, got + r),
            Seq::<Seq<u8>>::empty(),
        ),
        got.len() + r.len() == n && r.len() > 0 ==> run(ReaderModel::ReadPayload(n, got), r)
            == (ReaderModel::WaitStart1, seq![got + r]),
    decreases r.len(),
{
    if r.len() == 0 {
        assert(got + r =~= got);
    } else {
        lemma_run_payload(n, got, r.drop_last());
        assert(got + r.drop_last() + seq![r.last()] =~= got + r);
        assert((got + r.drop_last()).push(r.last()) =~= got + r);
        assert(Seq::<Seq<u8>>::empty().push(got + r) =~= seq![got + r]);
    }
}

/// From the state reached after the three header bytes that follow `START1`
/// by way of an idle reader: the outcome of the length bytes.
proof fn lemma_run_header(m: ReaderModel, hi: u8, lo: u8)
    requires
        is_idle(m),
    ensures
        run(m, seq![START1, START2, hi, lo]) == (
            step(ReaderModel::ReadLenLow(hi), lo).0,
            match step(ReaderModel::ReadLenLow(hi), lo).1 {
                Some(f) => seq![f],
                None => Seq::<Seq<u8>>::empty(),
            },
        ),
{
    let h = seq![START1, START2, hi, lo];
    assert(h =~= seq![START1] + seq![START2] + seq![hi] + seq![lo]);
    lemma_run_one(m, START1);
    lemma_run_append(m, seq![START1], seq![START2]);
    lemma_run_one(ReaderModel::WaitStart2, START2);
    lemma_run_append(m, seq![START1] + seq![START2], seq![hi]);
    lemma_run_one(ReaderModel::ReadLenHigh, hi);
    lemma_run_append(m, seq![START1] + seq![START2] + seq![hi], seq![lo]);
    lemma_run_one(ReaderModel::ReadLenLow(hi), lo);
    assert(Seq::<Seq<u8>>::empty() + Seq::<Seq<u8>>::empty() =~= Seq::<Seq<u8>>::empty());
    assert(Seq::<Seq<u8>>::empty() + Seq::<Seq<u8>>::empty() + Seq::<Seq<u8>>::empty()
        =~= Seq::<Seq<u8>>::empty());
    match step(ReaderModel::ReadLenLow(hi), lo).1 {
        Some(f) => {
            assert(Seq::<Seq<u8>>::empty() + seq![f] =~= seq![f]);
        },
        None => {},
    }
}

/// A frame made by `frame_payload`, fed to a reader that waits for a header,
/// gives back exactly its payload and leaves the reader waiting again, for
/// every payload of at most `MAX_PACKET_SIZE` bytes.
pub proof fn lemma_frame_roundtrip(m: ReaderModel, payload: Seq<u8>)
    requires
        is_idle(m),
        payload.len() <= MAX_PACKET_SIZE,
    ensures
        run(m, frame_bytes(payload)) == (ReaderModel::WaitStart1, seq![payload]),
{
    let len = payload.len();
    let hi = ((len / 256) % 256) as u8;
    let lo = (len % 256) as u8;
    assert(announced_len(hi, lo) == len);
    let h = seq![START1, START2, hi, lo];
    assert(frame_bytes(payload) =~= h + payload);
    lemma_run_header(m, hi, lo);
    lemma_run_append(m, h, payload);
    if len == 0 {
        assert(h + payload =~= h);
        assert(payload =~= Seq::<u8>::empty());
    } else {
        lemma_run_payload(len, Seq::<u8>::empty(), payload);
        assert(Seq::<u8>::empty() + payload =~= payload);
        assert(Seq::<Seq<u8>>::empty() + seq![payload] =~= seq![payload]);
    }
}

/// A header that announces more than `MAX_PACKET_SIZE` bytes, fed to a
/// reader that waits for a header, gives no frame and leaves the reader
/// waiting for the next header.
pub proof fn lemma_oversized_header_rejected(m: ReaderModel, hi: u8, lo: u8)
    requires
        is_idle(m),
        announced_len(hi, lo) > MAX_PACKET_SIZE,
    ensures
        run(m, seq![START1, START2, hi, lo]) == (ReaderModel::WaitStart1, Seq::<Seq<u8>>::empty()),
{
    lemma_run_header(m, hi, lo);
}

/// A stream of frames made by `frame_payload`, each of at most
/// `MAX_PACKET_SIZE` bytes, fed to a reader that waits for a header, gives
/// back every payload in order and leaves the reader waiting.
pub proof fn lemma_frames_stream(m: ReaderModel, payloads: Seq<Seq<u8>>)
    requires
        is_idle(m),
        forall|i: int| 0 <= i < payloads.len() ==> #[trigger] payloads[i].len() <= MAX_PACKET_SIZE,
    ensures
        payloads.len() > 0 ==> run(m, frames_bytes(payloads)) == (ReaderModel::WaitStart1, payloads),
        payloads.len() == 0 ==> run(m, frames_bytes(payloads)) == (m, payloads),
    decreases payloads.len(),
{
    if payloads.len() > 0 {
        let init = payloads.drop_last();
        lemma_frames_stream(m, init);
        lemma_run_append(m, frames_bytes(init), frame_bytes(payloads.last()));
        let mid = run(m, frames_bytes(init)).0;
        lemma_frame_roundtrip(mid, payloads.last());
        assert(init.push(payloads.last()) =~= payloads);
        assert(init + seq![payloads.last()] =~= payloads);
    } else {
        assert(run(m, Seq::<u8>::empty()) == (m, Seq::<Seq<u8>>::empty()));
        assert(payloads =~= Seq::<Seq<u8>>::empty());
    }
}

/// Resynchronisation: bytes with no `START1` among them, fed to a reader
/// that waits for a header (and that, waiting for `START2`, does not get it
/// first), give no frame and leave it waiting for `START1`: a frame starts
/// only with `START1` directly followed by `START2`.
pub proof fn lemma_garbage_resets(m: ReaderModel, g: Seq<u8>)
    requires
        is_idle(m),
        g.len() > 0,
        forall|i: int| 0 <= i < g.len() ==> g[i] != START1,
        m is WaitStart2 ==> g[0] != START2,
    ensures
        run(m, g) == (ReaderModel::WaitStart1, Seq::<Seq<u8>>::empty()),
    decreases g.len(),
{
    if g.len() == 1 {
        lemma_run_one(m, g[0]);
        assert(g =~= seq![g[0]]);
    } else {
        let init = g.drop_last();
        assert forall|i: int| 0 <= i < init.len() implies init[i] != START1 by {
            assert(init[i] == g[i]);
        }
        assert(init[0] == g[0]);
        lemma_garbage_resets(m, init);
    }
}

/// After bytes without `START1` (not starting with `START2` when the reader
/// waits for it), a frame made by `frame_payload` is read in full: the
/// reader gives exactly its payload and waits again.
pub proof fn lemma_frame_after_garbage(m: ReaderModel, g: Seq<u8>, payload: Seq<u8>)
    requires
        is_idle(m),
        g.len() > 0,
        forall|i: int| 0 <= i < g.len() ==> g[i] != START1,
        m is WaitStart2 ==> g[0] != START2,
        payload.len() <= MAX_PACKET_SIZE,
    ensures
        run(m, g + frame_bytes(payload)) == (ReaderModel::WaitStart1, seq![payload]),
{
    lemma_garbage_resets(m, g);
    lemma_run_append(m, g, frame_bytes(payload));
    lemma_frame_roundtrip(ReaderModel::WaitStart1, payload);
    assert(Seq::<Seq<u8>>::empty() + seq![payload] =~= seq![payload]);
}

/// A `START1` that is not followed by `START2` starts no frame: after it and
/// the next byte the reader waits for `START1` again (or, when that byte is
/// `START1` once more, for `START2`), with no frame given.
pub proof fn lemma_stray_start(m: ReaderModel, b: u8)
    requires
        is_idle(m),
        b != START2,
    ensures
        run(m, seq![START1, b]).1 == Seq::<Seq<u8>>::empty(),
        b != START1 ==> run(m, seq![START1, b]).0 == ReaderModel::WaitStart1,
        b == START1 ==> run(m, seq![START1, b]).0 == ReaderModel::WaitStart2,
{
    lemma_run_one(m, START1);
    lemma_run_append(m, seq![START1], seq![b]);
    lemma_run_one(ReaderModel::WaitStart2, b);
    assert(seq![START1] + seq![b] =~= seq![START1, b]);
    assert(Seq::<Seq<u8>>::empty() + Seq::<Seq<u8>>::empty() =~= Seq::<Seq<u8>>::empty());
}


/// A stray `START1` followed by a byte that is neither start byte, then
/// bytes without `START1`, then a frame: the stray start is dropped and the
/// frame's payload is read, and only it.
pub proof fn lemma_frame_after_stray_start(m: ReaderModel, b: u8, g: Seq<u8>, payload: Seq<u8>)
    requires
        is_idle(m),
        b != START1,
        b != START2,
        forall|i: int| 0 <= i < g.len() ==> g[i] != START1,
        payload.len() <= MAX_PACKET_SIZE,
    ensures
        run(m, seq![START1, b] + g + frame_bytes(payload)) == (ReaderModel::WaitStart1, seq![payload]),
{
    lemma_stray_start(m, b);
    assert(run(m, seq![START1, b]) == (ReaderModel::WaitStart1, Seq::<Seq<u8>>::empty()));
    if g.len() > 0 {
        lemma_frame_after_garbage(ReaderModel::WaitStart1, g, payload);
    } else {
        assert(g + frame_bytes(payload) =~= frame_bytes(payload));
        lemma_frame_roundtrip(ReaderModel::WaitStart1, payload);
    }
    assert(seq![START1, b] + g + frame_bytes(payload) =~= seq![START1, b] + (g + frame_bytes(payload)));
    lemma_run_append(m, seq![START1, b], g + frame_bytes(payload));
    assert(Seq::<Seq<u8>>::empty() + seq![payload] =~= seq![payload]);
}

} // verus!
