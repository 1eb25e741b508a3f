//! Wire codec for the inter-half serial link.
//!
//! An event travels as a fixed 4-byte ASCII record: a tag byte (`'P'` for
//! press, `'R'` for release), the raw row byte, the raw column byte, and a
//! terminating `'\n'`. There is no checksum; framing is purely
//! terminator-based via a 4-byte sliding receive buffer.

use vstd::prelude::*;
use crate::event::Event;

verus! {

/// Length of one wire record.
pub const PACKET_LEN: usize = 4;

/// Tag byte of a press record (ASCII `'P'`).
pub const TAG_PRESS: u8 = 80;

/// Tag byte of a release record (ASCII `'R'`).
pub const TAG_RELEASE: u8 = 82;

/// Terminator byte of every record (ASCII `'\n'`).
pub const TERMINATOR: u8 = 10;

/// The 4-byte wire form of an event.
pub open spec fn spec_serialize(e: Event) -> Seq<u8> {
    match e {
        Event::Press(r, c) => seq![TAG_PRESS, r, c, TERMINATOR],
        Event::Release(r, c) => seq![TAG_RELEASE, r, c, TERMINATOR],
    }
}

/// The event a 4-byte buffer parses to, or `None` when the buffer is not a
/// well-formed record (wrong tag, or no terminator in the trailing slot).
pub open spec fn spec_deserialize(b: Seq<u8>) -> Option<Event> {
    if b.len() == 4 && b[3] == TERMINATOR && b[0] == TAG_PRESS {
        Some(Event::Press(b[1], b[2]))
    } else if b.len() == 4 && b[3] == TERMINATOR && b[0] == TAG_RELEASE {
        Some(Event::Release(b[1], b[2]))
    } else {
        None
    }
}

/// Serializes an event into its 4-byte wire record.
pub fn serialize(e: Event) -> (p: [u8; 4])
    ensures
        p@ == spec_serialize(e),
{
    let p: [u8; 4] = match e {
        Event::Press(r, c) => [TAG_PRESS, r, c, TERMINATOR],
        Event::Release(r, c) => [TAG_RELEASE, r, c, TERMINATOR],
    };
    proof {
        assert(p@ =~= spec_serialize(e));
    }
    p
}

/// A buffer that is not a well-formed record: an unexpected tag byte, or
/// no terminator in the trailing slot.
#[derive(Clone, Copy, Debug, PartialEq, Eq, Structural)]
pub struct FramingError;

/// Parses one complete 4-byte record; malformed content is a framing
/// error. The receive path drops such records silently — the stream
/// self-heals on the next terminator — so the error never travels
/// further up the stack.
pub fn deserialize(bytes: &[u8; 4]) -> (r: Result<Event, FramingError>)
    ensures
        r == match spec_deserialize(bytes@) {
            Some(e) => Ok::<Event, FramingError>(e),
            None => Err::<Event, FramingError>(FramingError),
        },
{
    if bytes[3] == TERMINATOR && bytes[0] == TAG_PRESS {
        Ok(Event::Press(bytes[1], bytes[2]))
    } else if bytes[3] == TERMINATOR && bytes[0] == TAG_RELEASE {
        Ok(Event::Release(bytes[1], bytes[2]))
    } else {
        Err(FramingError)
    }
}

/// Serialization and deserialization are exact inverses: every event,
/// press or release, with any row and column byte, parses back from its
/// own wire record.
pub proof fn lemma_codec_round_trip(e: Event)
    ensures
        spec_deserialize(spec_serialize(e)) == Some(e),
{
}

/// The rolling 4-byte receive buffer of one serial link.
///
/// Each incoming byte shifts the buffer left and lands in the trailing
/// slot; the buffer holds a complete record exactly when that slot is the
/// terminator, at which point the whole buffer is parsed as one record.
pub struct RxBuffer {
    pub buf: [u8; 4],
}

impl RxBuffer {
    /// An empty receive buffer; all-zero contents parse to no event.
    pub fn new() -> (r: RxBuffer)
        ensures
            r.buf@ == seq![0u8, 0u8, 0u8, 0u8],
    {
        let r = RxBuffer { buf: [0, 0, 0, 0] };
        proof {
            assert(r.buf@ =~= seq![0u8, 0u8, 0u8, 0u8]);
        }
        r
    }

    /// Feeds one received byte: the buffer slides left by one and the byte
    /// fills the trailing slot; the whole new buffer is then parsed, so an
    /// event comes out exactly when the byte is the terminator and the
    /// buffer holds a well-formed record.
    pub fn push(&mut self, b: u8) -> (r: Option<Event>)
        ensures
            final(self).buf@ == old(self).buf@.subrange(1, 4).push(b),
            r == spec_deserialize(final(self).buf@),
    {
        self.buf = [self.buf[1], self.buf[2], self.buf[3], b];
        proof {
            assert(self.buf@ =~= old(self).buf@.subrange(1, 4).push(b));
        }
        if self.buf[3] == TERMINATOR {
            match deserialize(&self.buf) {
                Ok(e) => Some(e),
                Err(_) => None,
            }
        } else {
            None
        }
    }
}

} // verus!
