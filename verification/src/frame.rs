//! Frame types, decoded frames, and the byte-stuffing codec.

use vstd::prelude::*;

verus! {

/// The BEAST sync byte. Every frame on the wire starts with it, and any
/// literal occurrence of it inside a payload is doubled (byte-stuffed).
pub const BEAST_SYNC: u8 = 0x1A;

/// The three recognized frame types. Any other tag byte on the wire is a
/// parse error that triggers resynchronization, not a value of this type.
#[derive(Debug, Clone, Copy, PartialEq, Eq, Structural)]
pub enum BeastFrameType {
    ModeAC,
    ModeSShort,
    ModeSLong,
}

impl BeastFrameType {
    /// The tag byte that announces this frame type on the wire.
    pub open spec fn spec_tag(self) -> u8 {
        match self {
            BeastFrameType::ModeAC => 0x31,
            BeastFrameType::ModeSShort => 0x32,
            BeastFrameType::ModeSLong => 0x33,
        }
    }

    /// The payload length (in wire bytes, before unescaping) fixed by this type.
    pub open spec fn spec_payload_len(self) -> int {
        match self {
            BeastFrameType::ModeAC => 2,
            BeastFrameType::ModeSShort => 7,
            BeastFrameType::ModeSLong => 14,
        }
    }

    /// Total frame length from the type tag on: tag + timestamp + signal + payload.
    /// The leading sync byte is not counted.
    pub open spec fn spec_total_len(self) -> int {
        8 + self.spec_payload_len()
    }

    /// The frame type a tag byte stands for, if any.
    pub open spec fn spec_of_tag(tag: u8) -> Option<BeastFrameType> {
        if tag == 0x31 {
            Some(BeastFrameType::ModeAC)
        } else if tag == 0x32 {
            Some(BeastFrameType::ModeSShort)
        } else if tag == 0x33 {
            Some(BeastFrameType::ModeSLong)
        } else {
            None
        }
    }

    /// Recognize a tag byte; an unrecognized byte is handed back as the error.
    pub fn try_from(value: u8) -> (r: Result<BeastFrameType, u8>)
        ensures
            r == match BeastFrameType::spec_of_tag(value) {
                Some(t) => Ok::<BeastFrameType, u8>(t),
                None => Err::<BeastFrameType, u8>(value),
            },
    {
        match value {
            0x31 => Ok(BeastFrameType::ModeAC),
            0x32 => Ok(BeastFrameType::ModeSShort),
            0x33 => Ok(BeastFrameType::ModeSLong),
            _ => Err(value),
        }
    }

    /// Executable payload length; agrees with `spec_payload_len`.
    pub fn payload_len(self) -> (r: usize)
        ensures
            r == self.spec_payload_len(),
    {
        match self {
            BeastFrameType::ModeAC => 2,
            BeastFrameType::ModeSShort => 7,
            BeastFrameType::ModeSLong => 14,
        }
    }
}

/// The value of a byte sequence read as a big-endian unsigned integer.
pub open spec fn be_value(s: Seq<u8>) -> int
    decreases s.len(),
{
    if s.len() == 0 {
        0
    } else {
        be_value(s.drop_last()) * 256 + s.last()
    }
}

/// 256 raised to the power `n`: the number of values `n` bytes can hold.
pub open spec fn pow256(n: nat) -> int
    decreases n,
{
    if n == 0 {
        1
    } else {
        256 * pow256((n - 1) as nat)
    }
}

/// A big-endian reading of `n` bytes is a non-negative integer below 256^n.
pub proof fn lemma_be_value_bound(s: Seq<u8>)
    ensures
        0 <= be_value(s) < pow256(s.len()),
    decreases s.len(),
{
    if s.len() > 0 {
        lemma_be_value_bound(s.drop_last());
    }
}

/// Collapse byte-stuffing: every pair of consecutive sync bytes becomes a
/// single sync byte; all other bytes pass through unchanged, in order.
pub open spec fn unescape(s: Seq<u8>) -> Seq<u8>
    decreases s.len(),
{
    if s.len() == 0 {
        Seq::empty()
    } else if s.len() >= 2 && s[0] == BEAST_SYNC && s[1] == BEAST_SYNC {
        seq![BEAST_SYNC] + unescape(s.skip(2))
    } else {
        seq![s[0]] + unescape(s.skip(1))
    }
}

/// Apply byte-stuffing as a sender would: double every sync byte and pass
/// every other byte through unchanged, in order.
pub open spec fn escape(s: Seq<u8>) -> Seq<u8>
    decreases s.len(),
{
    if s.len() == 0 {
        Seq::empty()
    } else if s[0] == BEAST_SYNC {
        seq![BEAST_SYNC, BEAST_SYNC] + escape(s.skip(1))
    } else {
        seq![s[0]] + escape(s.skip(1))
    }
}

/// Round trip of the byte-stuffing codec: escaping any payload and then
/// unescaping it gives the original payload back, whatever sync bytes it
/// holds and wherever they stand.
pub proof fn lemma_escape_unescape_round_trip(s: Seq<u8>)
    ensures
        unescape(escape(s)) == s,
    decreases s.len(),
{
    if s.len() == 0 {
        assert(unescape(escape(s)) =~= s);
    } else if s[0] == BEAST_SYNC {
        lemma_escape_unescape_round_trip(s.skip(1));
        assert((seq![BEAST_SYNC, BEAST_SYNC] + escape(s.skip(1))).skip(2) =~= escape(s.skip(1)));
        assert(unescape(escape(s)) =~= s);
    } else {
        lemma_escape_unescape_round_trip(s.skip(1));
        assert((seq![s[0]] + escape(s.skip(1))).skip(1) =~= escape(s.skip(1)));
        assert(unescape(escape(s)) =~= s);
    }
}

/// The mathematical content of a decoded frame: what a `BeastFrame` is,
/// seen through its view.
pub ghost struct FrameModel {
    pub frame_type: BeastFrameType,
    /// The 48-bit timestamp as an unbounded integer.
    pub timestamp: int,
    pub signal: u8,
    /// The logical (already unescaped) payload bytes.
    pub payload: Seq<u8>,
}

/// A complete, validated frame as handed to the caller. The payload is
/// already unescaped; its logical length may therefore be shorter than the
/// wire length fixed by the frame type.
#[derive(Debug, Clone)]
pub struct BeastFrame {
    pub frame_type: BeastFrameType,
    /// 48-bit tick count of a 12 MHz clock, big-endian on the wire.
    pub timestamp_12mhz: u64,
    pub signal_level: u8,
    /// The unescaped message payload.
    pub message_data: Vec<u8>,
}

impl View for BeastFrame {
    type V = FrameModel;

    open spec fn view(&self) -> FrameModel {
        FrameModel {
            frame_type: self.frame_type,
            timestamp: self.timestamp_12mhz as int,
            signal: self.signal_level,
            payload: self.message_data@,
        }
    }
}

impl BeastFrame {
    /// The raw message bytes, ready for a semantic decoder.
    pub fn message_bytes(&self) -> (r: &[u8])
        ensures
            r@ == self.message_data@,
    {
        self.message_data.as_slice()
    }

    /// The timestamp in milliseconds (approximate): 12 MHz ticks divided
    /// by 12000.
    pub fn timestamp_ms(&self) -> (r: u64)
        ensures
            r == self.timestamp_12mhz / 12000,
    {
        self.timestamp_12mhz / 12000
    }
}

} // verus!
