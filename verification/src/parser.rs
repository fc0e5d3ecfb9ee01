//! The incremental framing state machine: sync scanning, frame decoding,
//! and backlog management.

use vstd::prelude::*;

use crate::frame::BeastFrame;
use crate::frame::BeastFrameType;
use crate::frame::FrameModel;
use crate::frame::BEAST_SYNC;

verus! {

/// What one parse pass over a backlog yields: the frames emitted in order,
/// the unconsumed tail, and whether the parser is still armed (a sync byte
/// was seen whose frame is not complete yet).
pub ghost struct ParseOutcome {
    pub frames: Seq<FrameModel>,
    pub rest: Seq<u8>,
    pub armed: bool,
}

/// The frame laid out at the front of `buf`, whose first byte is the type
/// tag of `t`: six big-endian timestamp bytes, one signal byte, and
/// `t.spec_payload_len()` wire payload bytes, unescaped.
pub open spec fn frame_at(buf: Seq<u8>, t: BeastFrameType) -> FrameModel {
    FrameModel {
        frame_type: t,
        timestamp: crate::frame::be_value(buf.subrange(1, 7)),
        signal: buf[7],
        payload: crate::frame::unescape(buf.subrange(8, t.spec_total_len())),
    }
}

/// The framing state machine, run to quiescence over a backlog.
///
/// Seeking (`armed == false`): each leading byte is dropped as noise until a
/// sync byte arms the parser. Armed: the next byte should be a recognized
/// type tag; with one, the frame is emitted once all its bytes are present,
/// and until then the machine stops, keeping the tail from the tag byte on.
/// An unrecognized tag byte resynchronizes: scanning resumes at that very
/// byte, so it re-arms the parser exactly when it is itself a sync byte (a
/// doubled sync may precede a genuine frame).
pub open spec fn run(buf: Seq<u8>, armed: bool) -> ParseOutcome
    decreases buf.len(),
{
    if buf.len() == 0 {
        ParseOutcome { frames: Seq::empty(), rest: buf, armed }
    } else if armed && BeastFrameType::spec_of_tag(buf[0]) is Some {
        let t = BeastFrameType::spec_of_tag(buf[0]).unwrap();
        if buf.len() < t.spec_total_len() {
            ParseOutcome { frames: Seq::empty(), rest: buf, armed: true }
        } else {
            let tail = run(buf.skip(t.spec_total_len()), false);
            ParseOutcome {
                frames: seq![frame_at(buf, t)] + tail.frames,
                rest: tail.rest,
                armed: tail.armed,
            }
        }
    } else {
        run(buf.skip(1), buf[0] == BEAST_SYNC)
    }
}

/// Chunk-boundary independence: running the machine over `b1 + b2` emits
/// exactly the frames of running it over `b1` followed by running it over
/// the leftover tail extended with `b2`, and leaves the same state. Feeding
/// a stream in chunks of any sizes therefore yields the same frames, in the
/// same order, as feeding the concatenated bytes at once.
pub proof fn lemma_chunks_compose(b1: Seq<u8>, b2: Seq<u8>, armed: bool)
    ensures
        ({
            let whole = run(b1 + b2, armed);
            let first = run(b1, armed);
            let second = run(first.rest + b2, first.armed);
            &&& whole.frames == first.frames + second.frames
            &&& whole.rest == second.rest
            &&& whole.armed == second.armed
        }),
    decreases b1.len(),
{
    let first = run(b1, armed);
    let second = run(first.rest + b2, first.armed);
    if b1.len() == 0 {
        assert(b1 + b2 =~= b2);
        assert(first.rest + b2 =~= b2);
        assert(Seq::<FrameModel>::empty() + second.frames =~= second.frames);
    } else if armed && BeastFrameType::spec_of_tag(b1[0]) is Some {
        let t = BeastFrameType::spec_of_tag(b1[0]).unwrap();
        assert((b1 + b2)[0] == b1[0]);
        if b1.len() >= t.spec_total_len() {
            assert((b1 + b2).subrange(1, 7) =~= b1.subrange(1, 7));
            assert((b1 + b2).subrange(8, t.spec_total_len()) =~= b1.subrange(
                8,
                t.spec_total_len(),
            ));
            assert(frame_at(b1 + b2, t) == frame_at(b1, t));
            assert((b1 + b2).skip(t.spec_total_len()) =~= b1.skip(t.spec_total_len()) + b2);
            lemma_chunks_compose(b1.skip(t.spec_total_len()), b2, false);
            let tail1 = run(b1.skip(t.spec_total_len()), false);
            assert(seq![frame_at(b1, t)] + (tail1.frames + second.frames) =~= (seq![
                frame_at(b1, t),
            ] + tail1.frames) + second.frames);
        } else {
            assert(first.rest + b2 =~= b1 + b2);
            assert(Seq::<FrameModel>::empty() + second.frames =~= second.frames);
        }
    } else {
        assert((b1 + b2)[0] == b1[0]);
        assert((b1 + b2).skip(1) =~= b1.skip(1) + b2);
        lemma_chunks_compose(b1.skip(1), b2, b1[0] == BEAST_SYNC);
    }
}

/// A parse pass settles: running the machine again on the tail it left,
/// without new bytes, emits nothing and changes nothing. In particular a
/// zero-length chunk is a no-op for the incremental parser.
pub proof fn lemma_run_settles(buf: Seq<u8>, armed: bool)
    ensures
        ({
            let o = run(buf, armed);
            let again = run(o.rest, o.armed);
            &&& again.frames == Seq::<FrameModel>::empty()
            &&& again.rest == o.rest
            &&& again.armed == o.armed
        }),
    decreases buf.len(),
{
    if buf.len() == 0 {
    } else if armed && BeastFrameType::spec_of_tag(buf[0]) is Some {
        let t = BeastFrameType::spec_of_tag(buf[0]).unwrap();
        if buf.len() >= t.spec_total_len() {
            lemma_run_settles(buf.skip(t.spec_total_len()), false);
        }
    } else {
        lemma_run_settles(buf.skip(1), buf[0] == BEAST_SYNC);
    }
}

/// The machine run over a sequence of chunks, one parse pass per chunk, each
/// pass starting from the tail and flag the pass before it left: exactly the
/// story of an incremental parser fed chunk by chunk.
pub open spec fn run_chunks(chunks: Seq<Seq<u8>>, rest: Seq<u8>, armed: bool) -> ParseOutcome
    decreases chunks.len(),
{
    if chunks.len() == 0 {
        ParseOutcome { frames: Seq::empty(), rest, armed }
    } else {
        let first = run(rest + chunks.first(), armed);
        let later = run_chunks(chunks.drop_first(), first.rest, first.armed);
        ParseOutcome {
            frames: first.frames + later.frames,
            rest: later.rest,
            armed: later.armed,
        }
    }
}

/// Chunk-boundary independence over any number of chunks, from any settled
/// state: feeding the chunks one by one yields the same frames, tail and
/// flag as feeding their concatenation at once.
pub proof fn lemma_chunks_from_settled_state(chunks: Seq<Seq<u8>>, rest: Seq<u8>, armed: bool)
    requires
        run(rest, armed).frames == Seq::<FrameModel>::empty(),
        run(rest, armed).rest == rest,
        run(rest, armed).armed == armed,
    ensures
        ({
            let stepwise = run_chunks(chunks, rest, armed);
            let at_once = run(rest + chunks.flatten(), armed);
            &&& stepwise.frames == at_once.frames
            &&& stepwise.rest == at_once.rest
            &&& stepwise.armed == at_once.armed
        }),
    decreases chunks.len(),
{
    if chunks.len() == 0 {
        assert(chunks.flatten() =~= Seq::<Seq<u8>>::empty().flatten());
        assert(rest + chunks.flatten() =~= rest);
    } else {
        let first = run(rest + chunks.first(), armed);
        lemma_run_settles(rest + chunks.first(), armed);
        lemma_chunks_from_settled_state(chunks.drop_first(), first.rest, first.armed);
        lemma_chunks_compose(rest + chunks.first(), chunks.drop_first().flatten(), armed);
        assert((rest + chunks.first()) + chunks.drop_first().flatten() =~= rest
            + chunks.flatten());
    }
}

/// Chunk-boundary independence for a fresh parser: for any list of chunks,
/// feeding them one by one emits the same frames, in the same order, and
/// leaves the same state, as feeding the whole concatenated byte sequence in
/// one call.
pub proof fn lemma_chunk_boundary_independence(chunks: Seq<Seq<u8>>)
    ensures
        ({
            let stepwise = run_chunks(chunks, Seq::empty(), false);
            let at_once = run(chunks.flatten(), false);
            &&& stepwise.frames == at_once.frames
            &&& stepwise.rest == at_once.rest
            &&& stepwise.armed == at_once.armed
        }),
{
    lemma_chunks_from_settled_state(chunks, Seq::empty(), false);
    assert(Seq::<u8>::empty() + chunks.flatten() =~= chunks.flatten());
}

/// Pure noise is discarded whole: a backlog holding no sync byte yields no
/// frame, leaves nothing behind, and the parser keeps seeking.
pub proof fn lemma_noise_yields_no_frames(buf: Seq<u8>)
    requires
        forall|i: int| 0 <= i < buf.len() ==> buf[i] != BEAST_SYNC,
    ensures
        ({
            let outcome = run(buf, false);
            &&& outcome.frames == Seq::<FrameModel>::empty()
            &&& outcome.rest == Seq::<u8>::empty()
            &&& outcome.armed == false
        }),
    decreases buf.len(),
{
    if buf.len() == 0 {
        assert(run(buf, false).rest =~= Seq::<u8>::empty());
    } else {
        assert(buf[0] != BEAST_SYNC);
        assert(forall|i: int| 0 <= i < buf.skip(1).len() ==> buf.skip(1)[i] == buf[i + 1]);
        lemma_noise_yields_no_frames(buf.skip(1));
    }
}

/// Resynchronization after a false start: a sync byte followed by an
/// unrecognized type tag parses exactly as if scanning had begun at the tag
/// byte itself, so whatever frames follow are still decoded.
pub proof fn lemma_resync_after_bad_tag(bad: u8, rest: Seq<u8>)
    requires
        BeastFrameType::spec_of_tag(bad) is None,
    ensures
        run(seq![BEAST_SYNC, bad] + rest, false) == run(seq![bad] + rest, false),
{
    let with_sync = seq![BEAST_SYNC, bad] + rest;
    let from_tag = seq![bad] + rest;
    assert(with_sync[0] == BEAST_SYNC);
    assert(from_tag[0] == bad);
    assert(with_sync.skip(1) =~= from_tag);
    assert(from_tag.skip(1) =~= rest);
    assert(run(with_sync, false) == run(from_tag, true));
    assert(run(from_tag, true) == run(rest, bad == BEAST_SYNC));
    assert(run(from_tag, false) == run(rest, bad == BEAST_SYNC));
}

/// A well-formed frame at the front of the stream decodes to exactly one
/// emitted frame: its type from the tag byte, its timestamp read big-endian
/// from the next six bytes, its signal byte, and its payload region
/// unescaped; the machine then carries on over the rest of the stream.
pub proof fn lemma_frame_decodes(t: BeastFrameType, body: Seq<u8>, rest: Seq<u8>)
    requires
        body.len() == t.spec_total_len(),
        BeastFrameType::spec_of_tag(body[0]) == Some(t),
    ensures
        ({
            let outcome = run(seq![BEAST_SYNC] + body + rest, false);
            let tail = run(rest, false);
            &&& outcome.frames == seq![frame_at(body, t)] + tail.frames
            &&& outcome.rest == tail.rest
            &&& outcome.armed == tail.armed
        }),
{
    let s = seq![BEAST_SYNC] + body + rest;
    assert(s[0] == BEAST_SYNC);
    assert(s.skip(1) =~= body + rest);
    assert(run(s, false) == run(body + rest, true));
    assert((body + rest)[0] == body[0]);
    assert((body + rest).len() >= t.spec_total_len());
    assert((body + rest).subrange(1, 7) =~= body.subrange(1, 7));
    assert((body + rest).subrange(8, t.spec_total_len()) =~= body.subrange(
        8,
        t.spec_total_len(),
    ));
    assert(frame_at(body + rest, t) == frame_at(body, t));
    assert((body + rest).skip(t.spec_total_len()) =~= rest);
    assert(run(body + rest, true).frames == seq![frame_at(body, t)] + run(rest, false).frames);
    assert(run(body + rest, true).rest == run(rest, false).rest);
    assert(run(body + rest, true).armed == run(rest, false).armed);
}

/// The incremental BEAST parser: a byte backlog plus a flag recording
/// whether a sync byte has been found whose frame is still awaited.
pub struct BeastParser {
    pub buffer: Vec<u8>,
    pub sync_found: bool,
}

impl Default for BeastParser {
    /// Same as `BeastParser::new`: empty backlog, seeking a sync byte.
    fn default() -> (r: BeastParser)
        ensures
            r.buffer@ == Seq::<u8>::empty(),
            r.sync_found == false,
    {
        BeastParser::new()
    }
}

impl BeastParser {
    /// A fresh parser: empty backlog, seeking a sync byte.
    pub fn new() -> (r: BeastParser)
        ensures
            r.buffer@ == Seq::<u8>::empty(),
            r.sync_found == false,
    {
        BeastParser { buffer: Vec::with_capacity(1024), sync_found: false }
    }

    /// Append freshly read bytes to the backlog; nothing else changes.
    pub fn ingest(&mut self, data: &[u8])
        ensures
            final(self).buffer@ == old(self).buffer@ + data@,
            final(self).sync_found == old(self).sync_found,
    {
        let ghost base = self.buffer@;
        let mut k: usize = 0;
        while k < data.len()
            invariant
                k <= data@.len(),
                self.buffer@ == base + data@.take(k as int),
                self.sync_found == old(self).sync_found,
            decreases data@.len() - k,
        {
            self.buffer.push(data[k]);
            proof {
                assert(base + data@.take(k as int) + seq![data@[k as int]] =~= base + data@.take(
                    k as int + 1,
                ));
            }
            k = k + 1;
        }
        proof {
            assert(data@.take(data@.len() as int) =~= data@);
        }
    }

    /// Remove the first `n` bytes of the backlog; the rest shift to the front.
    pub fn drain(&mut self, n: usize)
        requires
            n <= old(self).buffer@.len(),
        ensures
            final(self).buffer@ == old(self).buffer@.skip(n as int),
            final(self).sync_found == old(self).sync_found,
    {
        let ghost base = self.buffer@;
        let mut rest: Vec<u8> = Vec::new();
        let mut i: usize = n;
        while i < self.buffer.len()
            invariant
                n <= i <= base.len(),
                self.buffer@ == base,
                rest@ == base.subrange(n as int, i as int),
                self.sync_found == old(self).sync_found,
            decreases base.len() - i,
        {
            let b = self.buffer[i];
            rest.push(b);
            proof {
                assert(base.subrange(n as int, i as int).push(base[i as int]) =~= base.subrange(
                    n as int,
                    i as int + 1,
                ));
            }
            i = i + 1;
        }
        self.buffer = rest;
        proof {
            assert(base.subrange(n as int, base.len() as int) =~= base.skip(n as int));
        }
    }

    /// Collapse byte-stuffing in an extracted payload: every pair of
    /// consecutive sync bytes becomes one sync byte. Must run only on a
    /// fully-buffered, length-validated payload slice.
    pub fn unescape_data(&self, data: &[u8]) -> (r: Vec<u8>)
        ensures
            r@ == crate::frame::unescape(data@),
    {
        let mut result: Vec<u8> = Vec::new();
        let mut i: usize = 0;
        proof {
            assert(data@.skip(0) =~= data@);
            assert(Seq::<u8>::empty() + crate::frame::unescape(data@) =~= crate::frame::unescape(
                data@,
            ));
        }
        while i < data.len()
            invariant
                i <= data@.len(),
                crate::frame::unescape(data@) == result@ + crate::frame::unescape(
                    data@.skip(i as int),
                ),
            decreases data@.len() - i,
        {
            let ghost pre = result@;
            if data[i] == BEAST_SYNC && i + 1 < data.len() && data[i + 1] == BEAST_SYNC {
                result.push(BEAST_SYNC);
                proof {
                    assert(data@.skip(i as int).skip(2) =~= data@.skip(i as int + 2));
                    assert(pre + seq![BEAST_SYNC] =~= result@);
                    assert(pre + (seq![BEAST_SYNC] + crate::frame::unescape(
                        data@.skip(i as int + 2),
                    )) =~= result@ + crate::frame::unescape(data@.skip(i as int + 2)));
                }
                i = i + 2;
            } else {
                let b = data[i];
                result.push(b);
                proof {
                    assert(data@.skip(i as int).skip(1) =~= data@.skip(i as int + 1));
                    assert(pre + seq![b] =~= result@);
                    assert(pre + (seq![b] + crate::frame::unescape(data@.skip(i as int + 1)))
                        =~= result@ + crate::frame::unescape(data@.skip(i as int + 1)));
                }
                i = i + 1;
            }
        }
        proof {
            assert(data@.skip(data@.len() as int) =~= Seq::<u8>::empty());
            assert(result@ + Seq::<u8>::empty() =~= result@);
        }
        result
    }

    /// Try to decode one frame whose type tag stands at `pos` (the sync byte
    /// just before it is already consumed). Returns the frame and its length
    /// from the tag byte on when it is complete; `Ok(None)` when the tag is
    /// recognized but bytes are still missing (or `pos` is at the very end);
    /// the unrecognized tag byte as the error otherwise.
    pub fn try_parse_frame_at(&self, pos: usize) -> (r: Result<Option<(BeastFrame, usize)>, u8>)
        ensures
            ({
                let buf = self.buffer@;
                let p = pos as int;
                &&& (r is Err <==> p < buf.len() && BeastFrameType::spec_of_tag(buf[p]) is None)
                &&& (match r {
                    Err(b) => b == buf[p],
                    _ => true,
                })
                &&& (r matches Ok(Some(_)) <==> p < buf.len() && BeastFrameType::spec_of_tag(
                    buf[p],
                ) is Some && p + BeastFrameType::spec_of_tag(buf[p]).unwrap().spec_total_len()
                    <= buf.len())
                &&& (match r {
                    Ok(Some((frame, len))) => {
                        let t = BeastFrameType::spec_of_tag(buf[p]).unwrap();
                        &&& len == t.spec_total_len()
                        &&& frame@ == frame_at(buf.skip(p), t)
                    },
                    _ => true,
                })
            }),
    {
        if pos >= self.buffer.len() {
            return Ok(None);
        }
        let frame_type = BeastFrameType::try_from(self.buffer[pos])?;
        let message_len = frame_type.payload_len();
        let total_frame_len: usize = 1 + 6 + 1 + message_len;

        // Check whether the complete frame is already buffered.
        if self.buffer.len() - pos < total_frame_len {
            return Ok(None);
        }
        let ghost buf = self.buffer@;
        let ghost p = pos as int;
        let buffer_len: usize = self.buffer.len();

        // Timestamp: 6 bytes, big-endian, 48 bits.
        let mut timestamp: u64 = 0;
        let mut i: usize = 0;
        while i < 6
            invariant
                i <= 6,
                p + 8 <= buffer_len,
                buf.len() == buffer_len,
                buf == self.buffer@,
                pos == p,
                timestamp == crate::frame::be_value(buf.subrange(p + 1, p + 1 + i)),
            decreases 6 - i,
        {
            proof {
                crate::frame::lemma_be_value_bound(buf.subrange(p + 1, p + 1 + i));
                assert(crate::frame::pow256(5) == 0x100_0000_0000) by {
                    assert(crate::frame::pow256(0) == 1);
                    assert(crate::frame::pow256(1) == 0x100);
                    assert(crate::frame::pow256(2) == 0x1_0000);
                    assert(crate::frame::pow256(3) == 0x100_0000);
                    assert(crate::frame::pow256(4) == 0x1_0000_0000);
                }
                assert(crate::frame::pow256(i as nat) <= crate::frame::pow256(5)) by {
                    if i <= 4 {
                        assert(crate::frame::pow256(0) == 1);
                        assert(crate::frame::pow256(1) == 0x100);
                        assert(crate::frame::pow256(2) == 0x1_0000);
                        assert(crate::frame::pow256(3) == 0x100_0000);
                        assert(crate::frame::pow256(4) == 0x1_0000_0000);
                    }
                }
            }
            let b = self.buffer[pos + 1 + i];
            timestamp = timestamp * 256 + (b as u64);
            proof {
                assert(buf.subrange(p + 1, p + 1 + (i + 1)).drop_last() =~= buf.subrange(
                    p + 1,
                    p + 1 + i,
                ));
                assert(buf.subrange(p + 1, p + 1 + (i + 1)).last() == buf[p + 1 + i]);
            }
            i = i + 1;
        }

        // Signal level: the next single byte.
        let signal_level = self.buffer[pos + 7];

        // Wire payload: the following `message_len` raw bytes.
        let mut message_data: Vec<u8> = Vec::new();
        let mut j: usize = 0;
        while j < message_len
            invariant
                j <= message_len,
                p + 8 + message_len <= buffer_len,
                buf.len() == buffer_len,
                buf == self.buffer@,
                pos == p,
                message_data@ == buf.subrange(p + 8, p + 8 + j),
            decreases message_len - j,
        {
            let b = self.buffer[pos + 8 + j];
            message_data.push(b);
            proof {
                assert(buf.subrange(p + 8, p + 8 + j).push(buf[p + 8 + j]) =~= buf.subrange(
                    p + 8,
                    p + 8 + (j + 1),
                ));
            }
            j = j + 1;
        }

        // The payload region may hold byte-stuffed sync bytes: collapse them.
        let unescaped_data = self.unescape_data(message_data.as_slice());

        let frame = BeastFrame {
            frame_type,
            timestamp_12mhz: timestamp,
            signal_level,
            message_data: unescaped_data,
        };
        proof {
            let t = BeastFrameType::spec_of_tag(buf[p]).unwrap();
            assert(buf.skip(p).subrange(1, 7) =~= buf.subrange(p + 1, p + 7));
            assert(buf.skip(p).subrange(8, t.spec_total_len()) =~= buf.subrange(
                p + 8,
                p + 8 + t.spec_payload_len(),
            ));
            crate::frame::lemma_be_value_bound(buf.subrange(p + 1, p + 7));
        }
        Ok(Some((frame, total_frame_len)))
    }

    /// One parse pass: append the freshly read bytes to the backlog, then
    /// emit every frame that is now complete, in stream order. Consumed
    /// bytes (frames, noise, resynchronization skips) are physically removed
    /// from the backlog; only the unconsumed tail stays for the next call.
    /// The result and the new state are exactly what the framing state
    /// machine (`run`) yields on the old backlog extended by `data`.
    pub fn parse_frames(&mut self, data: &[u8]) -> (frames: Vec<BeastFrame>)
        ensures
            ({
                let outcome = run(old(self).buffer@ + data@, old(self).sync_found);
                &&& frames@.map_values(|f: BeastFrame| f@) == outcome.frames
                &&& final(self).buffer@ == outcome.rest
                &&& final(self).sync_found == outcome.armed
            }),
    {
        let ghost start_armed = self.sync_found;
        self.ingest(data);
        let ghost whole = self.buffer@;

        let mut frames: Vec<BeastFrame> = Vec::new();
        let mut pos: usize = 0;
        let mut armed: bool = self.sync_found;
        let mut halted: bool = false;
        proof {
            assert(whole.skip(0) =~= whole);
            assert(frames@.map_values(|f: BeastFrame| f@) =~= Seq::<FrameModel>::empty());
            assert(Seq::<FrameModel>::empty() + run(whole, start_armed).frames =~= run(
                whole,
                start_armed,
            ).frames);
        }
        while !halted && pos < self.buffer.len()
            invariant
                pos <= whole.len(),
                self.buffer@ == whole,
                self.sync_found == start_armed,
                ({
                    let full = run(whole, start_armed);
                    let rest = run(whole.skip(pos as int), armed);
                    &&& full.frames == frames@.map_values(|f: BeastFrame| f@) + rest.frames
                    &&& full.rest == rest.rest
                    &&& full.armed == rest.armed
                }),
                halted ==> ({
                    let rest = run(whole.skip(pos as int), armed);
                    &&& rest.frames == Seq::<FrameModel>::empty()
                    &&& rest.rest == whole.skip(pos as int)
                    &&& rest.armed == armed
                }),
            decreases whole.len() - pos, (if halted { 0int } else { 1int }),
        {
            let ghost p = pos as int;
            let ghost s = whole.skip(p);
            if !armed {
                // Seeking: drop one noise byte; a sync byte arms the parser.
                let b = self.buffer[pos];
                if b == BEAST_SYNC {
                    armed = true;
                }
                pos = pos + 1;
                proof {
                    assert(s.skip(1) =~= whole.skip(p + 1));
                }
            } else {
                match self.try_parse_frame_at(pos) {
                    Ok(opt) => match opt {
                        Some(frame_and_len) => {
                            let (frame, len) = frame_and_len;
                            let ghost pre = frames@;
                            let ghost t = BeastFrameType::spec_of_tag(whole[p]).unwrap();
                            frames.push(frame);
                            pos = pos + len;
                            armed = false;
                            proof {
                                assert(s.skip(t.spec_total_len()) =~= whole.skip(p + len));
                                assert(frames@.map_values(|f: BeastFrame| f@) =~= pre.map_values(
                                    |f: BeastFrame| f@,
                                ).push(frame@));
                                let tailrest = run(whole.skip(pos as int), false);
                                assert(pre.map_values(|f: BeastFrame| f@) + (seq![frame_at(s, t)]
                                    + tailrest.frames) =~= frames@.map_values(|f: BeastFrame| f@)
                                    + tailrest.frames);
                            }
                        },
                        None => {
                            // Incomplete frame: stop and await more bytes.
                            halted = true;
                        },
                    },
                    Err(bad) => {
                        // Unrecognized tag: resynchronize at this very byte,
                        // which re-arms the parser when it is itself a sync
                        // byte (a doubled sync before a genuine frame).
                        armed = bad == BEAST_SYNC;
                        pos = pos + 1;
                        proof {
                            assert(s.skip(1) =~= whole.skip(p + 1));
                        }
                    },
                }
            }
        }

        // Compact: physically remove everything consumed in this pass.
        proof {
            if !halted {
                assert(pos == whole.len());
                assert(whole.skip(pos as int) =~= Seq::<u8>::empty());
            }
        }
        self.drain(pos);
        self.sync_found = armed;
        proof {
            assert(frames@.map_values(|f: BeastFrame| f@) + Seq::<FrameModel>::empty()
                =~= frames@.map_values(|f: BeastFrame| f@));
        }
        frames
    }
}

} // verus!
