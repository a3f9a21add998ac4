//! The byte-stuffing codec: a stuffed block holds no zero byte, so that a
//! zero can mark where a frame starts.

use vstd::prelude::*;

verus! {

/// What a stuffed block stands for, or `None` where it is not a stuffed
/// block at all.
///
/// A block is a run of groups. Each group opens with a code byte `c >= 1`
/// and holds `c - 1` literal bytes. A code below 255 that is not the last
/// group closes with an implied zero.
pub open spec fn unstuffed(block: Seq<u8>) -> Option<Seq<u8>>
    decreases block.len(),
{
    if block.len() == 0 {
        Some(Seq::<u8>::empty())
    } else {
        let code = block[0] as int;
        if code == 0 || code > block.len() {
            None
        } else {
            let literal = block.subrange(1, code);
            let rest = block.subrange(code, block.len() as int);
            match unstuffed(rest) {
                None => None,
                Some(tail) => Some(
                    if code < 255 && rest.len() > 0 {
                        literal.push(0u8) + tail
                    } else {
                        literal + tail
                    },
                ),
            }
        }
    }
}

/// The decoder's answer: the message, or nothing where the block is invalid.
pub open spec fn cobs_decoded(block: Seq<u8>) -> Seq<u8> {
    match unstuffed(block) {
        Some(message) => message,
        None => Seq::<u8>::empty(),
    }
}

/// `front` followed by what `back` decodes to.
pub open spec fn decoded_after(front: Seq<u8>, back: Option<Seq<u8>>) -> Option<Seq<u8>> {
    match back {
        Some(tail) => Some(front + tail),
        None => None,
    }
}

/// COBS-decode `data`.
///
/// Returns the empty vector where `data` is not a stuffed block: a code
/// byte that is zero, or one that claims more bytes than are left.
pub fn cobs_decode(data: &[u8]) -> (output: Vec<u8>)
    ensures
        output@ == cobs_decoded(data@),
{
    let mut output: Vec<u8> = Vec::new();
    let mut index: usize = 0;
    proof {
        assert(data@.skip(0) =~= data@);
        match unstuffed(data@) {
            Some(message) => {
                assert(Seq::<u8>::empty() + message =~= message);
            },
            None => {},
        }
    }
    while index < data.len()
        invariant
            index <= data.len(),
            unstuffed(data@) == decoded_after(output@, unstuffed(data@.skip(index as int))),
        decreases data.len() - index,
    {
        let ghost group = data@.skip(index as int);
        let ghost before = output@;
        let code = data[index];
        if code == 0 {
            return Vec::new();
        }
        let block_size = (code - 1) as usize;
        index += 1;
        if block_size > data.len() - index {
            return Vec::new();
        }
        output.extend_from_slice(&data[index..index + block_size]);
        assert(output@ =~= before + data@.subrange(index as int, index + block_size));
        index += block_size;
        if block_size + 1 < 255 && index < data.len() {
            output.push(0);
        }
        proof {
            let rest = group.subrange(code as int, group.len() as int);
            assert(rest =~= data@.skip(index as int));
            assert(group.subrange(1, code as int) =~= data@.subrange(
                index - block_size,
                index as int,
            ));
            match unstuffed(rest) {
                Some(tail) => {
                    let literal = group.subrange(1, code as int);
                    if code < 255 && rest.len() > 0 {
                        assert(before + (literal.push(0u8) + tail) =~= output@ + tail);
                    } else {
                        assert(before + (literal + tail) =~= output@ + tail);
                    }
                },
                None => {},
            }
        }
    }
    proof {
        assert(data@.skip(index as int) =~= Seq::<u8>::empty());
        assert(output@ + Seq::<u8>::empty() =~= output@);
    }
    output
}

/// How many bytes stand before the first zero of `message` (all of them
/// where it holds none).
pub open spec fn leading_run(message: Seq<u8>) -> nat
    decreases message.len(),
{
    if message.len() == 0 || message[0] == 0 {
        0
    } else {
        1 + leading_run(message.drop_first())
    }
}

/// The canonical stuffed form of `message`: each zero-free run becomes
/// groups of at most 254 literal bytes, and each zero is implied by the
/// code byte of the group before it.
pub open spec fn stuffed(message: Seq<u8>) -> Seq<u8>
    decreases message.len(),
{
    let run = leading_run(message);
    if run >= 254 && message.len() >= 254 {
        let group = seq![255u8] + message.subrange(0, 254);
        if message.len() == 254 {
            group
        } else {
            group + stuffed(message.subrange(254, message.len() as int))
        }
    } else if run >= message.len() {
        seq![(message.len() + 1) as u8] + message
    } else {
        seq![(run + 1) as u8] + message.subrange(0, run as int) + stuffed(
            message.subrange(run as int + 1, message.len() as int),
        )
    }
}

/// The leading run ends at the first zero, or at the end.
pub proof fn lemma_leading_run(message: Seq<u8>)
    ensures
        leading_run(message) <= message.len(),
        forall|i: int| 0 <= i < leading_run(message) ==> message[i] != 0,
        leading_run(message) < message.len() ==> message[leading_run(message) as int] == 0,
    decreases message.len(),
{
    if message.len() == 0 || message[0] == 0 {
    } else {
        let rest = message.drop_first();
        lemma_leading_run(rest);
        assert forall|i: int| 0 <= i < leading_run(message) implies message[i] != 0 by {
            if i > 0 {
                assert(message[i] == rest[i - 1]);
            }
        }
        if leading_run(message) < message.len() {
            assert(message[leading_run(message) as int] == rest[leading_run(rest) as int]);
        }
    }
}

/// A message of at most 254 bytes grows by exactly one byte when it is
/// stuffed: each zero gives way to a code byte, and one code byte opens the
/// block.
pub proof fn lemma_stuffed_len(message: Seq<u8>)
    requires
        message.len() <= 254,
    ensures
        stuffed(message).len() == message.len() + 1,
    decreases message.len(),
{
    lemma_leading_run(message);
    let run = leading_run(message);
    if run >= 254 && message.len() >= 254 {
    } else if run >= message.len() {
    } else {
        lemma_stuffed_len(message.subrange(run as int + 1, message.len() as int));
    }
}

/// One step of decoding: a block that opens with a valid code byte.
proof fn lemma_unstuffed_group(code: u8, literal: Seq<u8>, rest: Seq<u8>)
    requires
        code >= 1,
        literal.len() == code - 1,
    ensures
        unstuffed(seq![code] + literal + rest) == match unstuffed(rest) {
            None => None::<Seq<u8>>,
            Some(tail) => Some(
                if code < 255 && rest.len() > 0 {
                    literal.push(0u8) + tail
                } else {
                    literal + tail
                },
            ),
        },
{
    let block = seq![code] + literal + rest;
    assert(block[0] == code);
    assert(block.subrange(1, code as int) =~= literal);
    assert(block.subrange(code as int, block.len() as int) =~= rest);
}

/// Stuffing leaves no zero byte and at least one byte, and decoding undoes
/// it exactly: whatever the message, zeros included.
pub proof fn lemma_stuff_round_trip(message: Seq<u8>)
    ensures
        stuffed(message).len() > 0,
        forall|i: int| 0 <= i < stuffed(message).len() ==> stuffed(message)[i] != 0,
        unstuffed(stuffed(message)) == Some(message),
        cobs_decoded(stuffed(message)) == message,
    decreases message.len(),
{
    lemma_leading_run(message);
    let run = leading_run(message);
    let len = message.len() as int;
    let empty = Seq::<u8>::empty();
    if run >= 254 && message.len() >= 254 {
        let literal = message.subrange(0, 254);
        if message.len() == 254 {
            assert(seq![255u8] + literal =~= seq![255u8] + literal + empty);
            lemma_unstuffed_group(255u8, literal, empty);
            assert(literal + empty =~= message);
        } else {
            let rest = message.subrange(254, len);
            lemma_stuff_round_trip(rest);
            lemma_unstuffed_group(255u8, literal, stuffed(rest));
            assert(literal + rest =~= message);
        }
    } else if run >= message.len() {
        let code = (message.len() + 1) as u8;
        assert(seq![code] + message =~= seq![code] + message + empty);
        lemma_unstuffed_group(code, message, empty);
        assert(message + empty =~= message);
    } else {
        let code = (run + 1) as u8;
        let literal = message.subrange(0, run as int);
        let rest = message.subrange(run as int + 1, len);
        lemma_stuff_round_trip(rest);
        lemma_unstuffed_group(code, literal, stuffed(rest));
        assert(literal.push(0u8) + rest =~= message);
    }
}

} // verus!
