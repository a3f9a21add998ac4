//! The stream buffer: bytes arrive at the tail and leave from the head.

use crate::search::{first_position, lemma_first_position, position_of};
use std::collections::VecDeque;
use vstd::prelude::*;

verus! {

/// A first-in, first-out queue of bytes. Its view is the bytes it holds,
/// oldest first.
pub struct RingBuffer {
    buffer: VecDeque<u8>,
}

impl View for RingBuffer {
    type V = Seq<u8>;

    closed spec fn view(&self) -> Seq<u8> {
        self.buffer@
    }
}

/// `VecDeque::as_slices`: the two contiguous runs that together hold the
/// contents of the deque, in order.
#[verifier::external_body]
fn deque_halves(buffer: &VecDeque<u8>) -> (halves: (&[u8], &[u8]))
    ensures
        halves.0@ + halves.1@ == buffer@,
{
    buffer.as_slices()
}

/// Where `needle` first stands in `front + back`, from where it first
/// stands in each.
proof fn lemma_first_position_concat(front: Seq<u8>, back: Seq<u8>, needle: u8)
    ensures
        first_position(front + back, needle) == match first_position(front, needle) {
            Some(index) => Some(index),
            None => match first_position(back, needle) {
                Some(index) => Some(front.len() + index),
                None => None,
            },
        },
{
    let whole = front + back;
    lemma_first_position(front, needle);
    lemma_first_position(back, needle);
    lemma_first_position(whole, needle);
    match first_position(front, needle) {
        Some(index) => {
            assert(whole[index] == needle);
            assert forall|j: int| 0 <= j < index implies whole[j] != needle by {
                assert(whole[j] == front[j]);
            }
            if first_position(whole, needle) is None {
                assert(whole[index] != needle);
            }
        },
        None => {
            match first_position(back, needle) {
                Some(index) => {
                    let at = front.len() + index;
                    assert(whole[at] == back[index]);
                    assert forall|j: int| 0 <= j < at implies whole[j] != needle by {
                        if j < front.len() {
                            assert(whole[j] == front[j]);
                        } else {
                            assert(whole[j] == back[j - front.len()]);
                        }
                    }
                    if first_position(whole, needle) is None {
                        assert(whole[at] != needle);
                    }
                },
                None => {
                    assert forall|j: int| 0 <= j < whole.len() implies whole[j] != needle by {
                        if j < front.len() {
                            assert(whole[j] == front[j]);
                        } else {
                            assert(whole[j] == back[j - front.len()]);
                        }
                    }
                },
            }
        },
    }
}

impl RingBuffer {
    /// An empty buffer.
    pub fn new() -> (ring: RingBuffer)
        ensures
            ring@ == Seq::<u8>::empty(),
    {
        RingBuffer { buffer: VecDeque::new() }
    }

    /// How many bytes the buffer holds.
    pub fn len(&self) -> (len: usize)
        ensures
            len == self@.len(),
    {
        self.buffer.len()
    }

    /// The index of the first occurrence of `byte`, counted from the head.
    pub fn find(&self, byte: u8) -> (found: Option<usize>)
        ensures
            position_of(found) == first_position(self@, byte),
    {
        let (first_half, second_half) = deque_halves(&self.buffer);
        proof {
            assert(self.buffer.len() == self.buffer@.len());
            assert(self.buffer@.len() == first_half@.len() + second_half@.len());
            lemma_first_position_concat(first_half@, second_half@, byte);
            lemma_first_position(first_half@, byte);
            lemma_first_position(second_half@, byte);
        }
        match memchr::memchr(byte, first_half) {
            Some(loc) => Some(loc),
            None => match memchr::memchr(byte, second_half) {
                Some(loc) => Some(loc + first_half.len()),
                None => None,
            },
        }
    }

    /// How often `byte` occurs in the buffer.
    pub fn count(&self, byte: u8) -> (total: usize)
        ensures
            total == self@.to_multiset().count(byte),
    {
        let len = self.buffer.len();
        let mut total: usize = 0;
        let mut index: usize = 0;
        proof {
            let nothing = self.buffer@.take(0);
            nothing.to_multiset_ensures();
            assert(!nothing.contains(byte));
        }
        while index < len
            invariant
                len == self.buffer@.len(),
                index <= len,
                total <= index,
                total == self.buffer@.take(index as int).to_multiset().count(byte),
            decreases len - index,
        {
            proof {
                let seen = self.buffer@.take(index as int);
                assert(self.buffer@.take(index + 1) =~= seen.push(self.buffer@[index as int]));
                seen.to_multiset_ensures();
            }
            if self.buffer[index] == byte {
                total += 1;
            }
            index += 1;
        }
        proof {
            assert(self.buffer@.take(index as int) =~= self.buffer@);
        }
        total
    }

    /// Discard the first `num` bytes, or all of them where the buffer holds
    /// fewer.
    pub fn chop_front(&mut self, num: usize)
        ensures
            num <= old(self)@.len() ==> final(self)@ == old(self)@.skip(num as int),
            num > old(self)@.len() ==> final(self)@ == Seq::<u8>::empty(),
    {
        let len = self.buffer.len();
        let target = if num < len {
            num
        } else {
            len
        };
        let mut removed: usize = 0;
        while removed < target
            invariant
                target <= old(self)@.len(),
                removed <= target,
                self.buffer@ == old(self)@.skip(removed as int),
            decreases target - removed,
        {
            self.buffer.pop_front();
            removed += 1;
            assert(self.buffer@ =~= old(self)@.skip(removed as int));
        }
        proof {
            if num > old(self)@.len() {
                assert(self.buffer@ =~= Seq::<u8>::empty());
            }
        }
    }

    /// Add `data` at the tail.
    pub fn extend(&mut self, data: &[u8])
        ensures
            final(self)@ == old(self)@ + data@,
    {
        let mut index: usize = 0;
        while index < data.len()
            invariant
                index <= data.len(),
                self.buffer@ == old(self)@ + data@.take(index as int),
            decreases data.len() - index,
        {
            self.buffer.push_back(data[index]);
            index += 1;
            assert(self.buffer@ =~= old(self)@ + data@.take(index as int));
        }
        proof {
            assert(data@.take(index as int) =~= data@);
        }
    }

    /// A copy of the contents, in order. The buffer is left as it is.
    pub fn get_data(&self) -> (data: Vec<u8>)
        ensures
            data@ == self@,
    {
        let len = self.buffer.len();
        let mut data: Vec<u8> = Vec::new();
        let mut index: usize = 0;
        while index < len
            invariant
                len == self.buffer@.len(),
                index <= len,
                data@ == self.buffer@.take(index as int),
            decreases len - index,
        {
            data.push(self.buffer[index]);
            index += 1;
            assert(data@ =~= self.buffer@.take(index as int));
        }
        proof {
            assert(self.buffer@.take(index as int) =~= self.buffer@);
        }
        data
    }
}

} // verus!
