//! Frames in the byte stream: finding one, checking it, and finding the
//! next one after a bad one.
//!
//! On the wire a frame is a zero byte, a length byte `n`, and a stuffed
//! block of `n` bytes. The block decodes to a message id, a payload length
//! `l`, `l` payload bytes and a checksum over all that stands before it.

use crate::checksum::{checksum, xor_fold};
use crate::cobs::{cobs_decode, cobs_decoded, lemma_stuff_round_trip, lemma_stuffed_len, stuffed};
use crate::ring_buffer::RingBuffer;
use crate::search::{first_position, lemma_first_position};
use vstd::prelude::*;

verus! {

/// The byte that opens a frame.
pub const DELIMITER: u8 = 0;

/// Raw message data.
pub struct RawMessage {
    pub message_id: u8,
    pub payload: Vec<u8>,
}

/// A message as a mathematical value.
pub struct MessageView {
    pub message_id: u8,
    pub payload: Seq<u8>,
}

impl View for RawMessage {
    type V = MessageView;

    open spec fn view(&self) -> MessageView {
        MessageView { message_id: self.message_id, payload: self.payload@ }
    }
}

/// The view of a message that may be absent.
pub open spec fn message_view(parsed: Option<RawMessage>) -> Option<MessageView> {
    match parsed {
        Some(message) => Some(message@),
        None => None,
    }
}

/// The message that a decoded block holds, if it holds one: the block is
/// exactly its id, its payload length, a payload of that length and the
/// checksum, and the checksum is right. A block that is shorter, or that
/// goes on behind its checksum, holds none.
pub open spec fn message_in(block: Seq<u8>) -> Option<MessageView> {
    if block.len() < 2 {
        None
    } else {
        let payload_len = block[1] as int;
        if block.len() != payload_len + 3 {
            None
        } else if block[2 + payload_len] != xor_fold(block.subrange(0, 2 + payload_len)) {
            None
        } else {
            Some(
                MessageView {
                    message_id: block[0],
                    payload: block.subrange(2, 2 + payload_len),
                },
            )
        }
    }
}

/// The frame that opens `bytes`, if one does.
pub open spec fn frame_at_head(bytes: Seq<u8>) -> Option<MessageView> {
    if bytes.len() < 2 {
        None
    } else if bytes[0] != DELIMITER {
        None
    } else {
        let size = bytes[1] as int;
        if bytes.len() < size + 2 {
            None
        } else {
            message_in(cobs_decoded(bytes.subrange(2, size + 2)))
        }
    }
}

/// Try to parse `bytes` into a packet.
///
/// The packet has to start at the first byte; bytes after it are ignored.
pub fn parse_bytes_raw(bytes: &[u8]) -> (parsed: Option<RawMessage>)
    ensures
        message_view(parsed) == frame_at_head(bytes@),
{
    if bytes.len() < 2 {
        return None;
    }
    let cobs_frame = bytes[0];
    let msg_size = bytes[1] as usize;
    if cobs_frame != DELIMITER || bytes.len() < msg_size + 2 {
        return None;
    }
    let message = cobs_decode(&bytes[2..msg_size + 2]);
    let message_len = message.len();
    if message_len < 2 {
        return None;
    }
    let message_id = message[0];
    let payload_len = message[1] as usize;
    if message_len != 2 + payload_len + 1 {
        return None;
    }
    let decoded = message.as_slice();
    let msg_checksum = decoded[2 + payload_len];
    if msg_checksum != checksum(&decoded[0..2 + payload_len]) {
        return None;
    }
    let mut payload: Vec<u8> = Vec::new();
    payload.extend_from_slice(&decoded[2..2 + payload_len]);
    assert(payload@ =~= message@.subrange(2, 2 + payload_len));
    Some(RawMessage { message_id, payload })
}

/// One step of the scanner on the stream `stream`: the message it hands
/// out, if any, and the stream it leaves.
///
/// With no delimiter in the stream, nothing happens. Otherwise the frame is
/// sought at the first delimiter, at index `start`. A frame found there
/// leaves the stream, with all that stood before it. Where none is found,
/// the stream is cut to start at the next delimiter after `start`, or left
/// as it is where there is no such delimiter yet.
pub open spec fn scan(stream: Seq<u8>) -> (Option<MessageView>, Seq<u8>) {
    match first_position(stream, DELIMITER) {
        None => (None, stream),
        Some(start) => {
            let candidate = stream.skip(start);
            match frame_at_head(candidate) {
                Some(message) => (Some(message), stream.skip(start + 2 + candidate[1])),
                None => match first_position(candidate.skip(1), DELIMITER) {
                    Some(next) => (None, stream.skip(start + 1 + next)),
                    None => (None, stream),
                },
            }
        },
    }
}

/// Search for packets in `buffer`, decoding them if found.
///
/// Returns `None` if no packet was found, and the packet otherwise. One
/// call looks at one place: after a `None` that shortened the buffer, or
/// after a packet, another call may find more.
pub fn process_buffer(buffer: &mut RingBuffer) -> (found: Option<RawMessage>)
    ensures
        (message_view(found), final(buffer)@) == scan(old(buffer)@),
{
    let snapshot = buffer.get_data();
    let data = snapshot.as_slice();
    proof {
        lemma_first_position(data@, DELIMITER);
    }
    match memchr::memchr(DELIMITER, data) {
        Some(curr_idx) => {
            let chopped_data = &data[curr_idx..data.len()];
            assert(chopped_data@ =~= data@.skip(curr_idx as int));
            match parse_bytes_raw(chopped_data) {
                Some(packet) => {
                    // Chop off the packet data so we don't parse it again
                    let msg_size = chopped_data[1] as usize;
                    buffer.chop_front(curr_idx + 2 + msg_size);
                    Some(packet)
                },
                None => {
                    // Jump to the next packet, if there is one
                    let later = &chopped_data[1..chopped_data.len()];
                    assert(later@ =~= chopped_data@.skip(1));
                    proof {
                        lemma_first_position(later@, DELIMITER);
                    }
                    match memchr::memchr(DELIMITER, later) {
                        Some(next_idx) => {
                            buffer.chop_front(curr_idx + next_idx + 1);
                        },
                        None => {},
                    }
                    None
                },
            }
        },
        None => None,
    }
}

/// A frame as it stands on the wire, whole and alone: the delimiter, the
/// length of the block, and a block of that length that holds no delimiter.
pub open spec fn well_framed(frame: Seq<u8>) -> bool {
    &&& frame.len() >= 2
    &&& frame[0] == DELIMITER
    &&& frame.len() == 2 + frame[1]
    &&& forall|i: int| 1 <= i < frame.len() ==> frame[i] != DELIMITER
}

/// The wire form of `message`: its id, the length of its payload, the
/// payload and the checksum of these, stuffed and put behind the delimiter
/// and the length of the stuffed block.
pub open spec fn framed(message: MessageView) -> Seq<u8> {
    let body = seq![message.message_id, message.payload.len() as u8] + message.payload;
    let block = stuffed(body.push(xor_fold(body)));
    seq![DELIMITER, block.len() as u8] + block
}

/// A message with a payload of at most 251 bytes has a well-formed wire
/// form, and parsing that form gives the message back. With its id, its
/// length and its checksum such a message takes at most 254 bytes, so that
/// its stuffed block takes at most 255, the most that the length byte of a
/// frame can announce.
pub proof fn lemma_frame_round_trip(message: MessageView)
    requires
        message.payload.len() <= 251,
    ensures
        well_framed(framed(message)),
        frame_at_head(framed(message)) == Some(message),
{
    let body = seq![message.message_id, message.payload.len() as u8] + message.payload;
    let decoded = body.push(xor_fold(body));
    let block = stuffed(decoded);
    let frame = framed(message);
    lemma_stuff_round_trip(decoded);
    lemma_stuffed_len(decoded);
    assert(frame.subrange(2, block.len() as int + 2) =~= block);
    assert(decoded.subrange(0, 2 + message.payload.len() as int) =~= body);
    assert(decoded.subrange(2, 2 + message.payload.len() as int) =~= message.payload);
    assert forall|i: int| 1 <= i < frame.len() implies frame[i] != DELIMITER by {
        if i >= 2 {
            assert(frame[i] == block[i - 2]);
        }
    }
}

/// What follows a whole frame does not change what the frame holds.
pub proof fn lemma_frame_ignores_tail(frame: Seq<u8>, tail: Seq<u8>)
    requires
        frame.len() >= 2,
        frame.len() == 2 + frame[1],
    ensures
        frame_at_head(frame + tail) == frame_at_head(frame),
{
    let size = frame[1] as int;
    assert((frame + tail).subrange(2, size + 2) =~= frame.subrange(2, size + 2));
}

/// A whole valid frame at the head of the stream is handed out by one
/// step, which leaves exactly what followed the frame.
pub proof fn lemma_scan_takes_frame(frame: Seq<u8>, tail: Seq<u8>)
    requires
        well_framed(frame),
        frame_at_head(frame) is Some,
    ensures
        scan(frame + tail) == (frame_at_head(frame), tail),
{
    let stream = frame + tail;
    lemma_frame_ignores_tail(frame, tail);
    assert(stream.skip(0) =~= stream);
    assert(stream.skip(frame.len() as int) =~= tail);
}

/// Resynchronisation: a corrupted frame followed at once by a valid one.
/// The first step hands out no message and leaves the stream at the start
/// of the valid frame; the next step hands out that frame's message whole.
pub proof fn lemma_scan_resynchronizes(bad: Seq<u8>, good: Seq<u8>, tail: Seq<u8>)
    requires
        well_framed(bad),
        frame_at_head(bad) is None,
        well_framed(good),
        frame_at_head(good) is Some,
    ensures
        scan(bad + good + tail) == (None::<MessageView>, good + tail),
        scan(good + tail) == (frame_at_head(good), tail),
{
    let rest = good + tail;
    let stream = bad + good + tail;
    assert(stream =~= bad + rest);
    lemma_frame_ignores_tail(bad, rest);
    assert(stream.skip(0) =~= stream);
    let later = stream.skip(1);
    let next = bad.len() - 1;
    assert(later[next] == good[0]);
    assert forall|j: int| 0 <= j < next implies later[j] != DELIMITER by {
        assert(later[j] == bad[j + 1]);
    }
    lemma_first_position(later, DELIMITER);
    if first_position(later, DELIMITER) is None {
        assert(later[next] != DELIMITER);
    }
    assert(stream.skip(1 + next) =~= rest);
    lemma_scan_takes_frame(good, tail);
}

/// Incompleteness: while only a part of a valid frame has arrived, a step
/// hands out no message and leaves the stream untouched; once the last
/// byte is there, the step hands out the message and leaves nothing.
pub proof fn lemma_scan_waits_for_whole_frame(frame: Seq<u8>, arrived: int)
    requires
        well_framed(frame),
        frame_at_head(frame) is Some,
        0 <= arrived < frame.len(),
    ensures
        scan(frame.take(arrived)) == (None::<MessageView>, frame.take(arrived)),
        scan(frame) == (frame_at_head(frame), Seq::<u8>::empty()),
{
    let part = frame.take(arrived);
    if arrived > 0 {
        assert(part.skip(0) =~= part);
        let later = part.skip(1);
        assert forall|j: int| 0 <= j < later.len() implies later[j] != DELIMITER by {
            assert(later[j] == frame[j + 1]);
        }
        lemma_first_position(later, DELIMITER);
        if arrived >= 2 {
            assert(part[1] == frame[1]);
        }
    }
    assert(frame + Seq::<u8>::empty() =~= frame);
    lemma_scan_takes_frame(frame, Seq::<u8>::empty());
}

} // verus!
