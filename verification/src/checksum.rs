//! The XOR checksum that guards every frame.

use vstd::prelude::*;

verus! {

/// The bitwise XOR of every byte of `bytes`, starting from zero.
pub open spec fn xor_fold(bytes: Seq<u8>) -> u8
    decreases bytes.len(),
{
    if bytes.len() == 0 {
        0u8
    } else {
        xor_fold(bytes.drop_last()) ^ bytes.last()
    }
}

/// Calculate a checksum for a message.
pub fn checksum(message: &[u8]) -> (sum: u8)
    ensures
        sum == xor_fold(message@),
{
    let mut sum: u8 = 0;
    let mut i: usize = 0;
    while i < message.len()
        invariant
            i <= message.len(),
            sum == xor_fold(message@.take(i as int)),
        decreases message.len() - i,
    {
        proof {
            assert(message@.take(i + 1).drop_last() =~= message@.take(i as int));
        }
        sum ^= message[i];
        i += 1;
    }
    proof {
        assert(message@.take(i as int) =~= message@);
    }
    sum
}

/// XOR on bytes is associative and commutative, and zero is its identity.
proof fn lemma_xor_laws(a: u8, b: u8, c: u8)
    ensures
        (a ^ b) ^ c == a ^ (b ^ c),
        a ^ b == b ^ a,
        a ^ 0u8 == a,
        0u8 ^ a == a,
        a ^ a == 0u8,
{
    assert((a ^ b) ^ c == a ^ (b ^ c)) by (bit_vector);
    assert(a ^ b == b ^ a) by (bit_vector);
    assert(a ^ 0u8 == a) by (bit_vector);
    assert(0u8 ^ a == a) by (bit_vector);
    assert(a ^ a == 0u8) by (bit_vector);
}

/// The checksum of nothing is zero.
pub proof fn lemma_checksum_empty()
    ensures
        xor_fold(Seq::<u8>::empty()) == 0u8,
{
}

/// The checksum of a concatenation is the XOR of the checksums of its parts.
pub proof fn lemma_checksum_concat(a: Seq<u8>, b: Seq<u8>)
    ensures
        xor_fold(a + b) == xor_fold(a) ^ xor_fold(b),
    decreases b.len(),
{
    if b.len() == 0 {
        assert(a + b =~= a);
        lemma_xor_laws(xor_fold(a), 0u8, 0u8);
    } else {
        assert((a + b).drop_last() =~= a + b.drop_last());
        lemma_checksum_concat(a, b.drop_last());
        lemma_xor_laws(xor_fold(a), xor_fold(b.drop_last()), b.last());
    }
}

/// The checksum does not depend on the direction in which the bytes are read.
pub proof fn lemma_checksum_reverse(bytes: Seq<u8>)
    ensures
        xor_fold(bytes.reverse()) == xor_fold(bytes),
    decreases bytes.len(),
{
    if bytes.len() > 0 {
        let head = seq![bytes.last()];
        let tail = bytes.drop_last().reverse();
        assert(bytes.reverse() =~= head + tail);
        lemma_checksum_concat(head, tail);
        lemma_checksum_reverse(bytes.drop_last());
        assert(xor_fold(head) == bytes.last()) by {
            assert(head.drop_last() =~= Seq::<u8>::empty());
            assert(xor_fold(head.drop_last()) == 0u8);
            assert(head.last() == bytes.last());
            assert(xor_fold(head) == xor_fold(head.drop_last()) ^ head.last());
            lemma_xor_laws(bytes.last(), 0u8, 0u8);
        }
        lemma_xor_laws(bytes.last(), xor_fold(bytes.drop_last()), 0u8);
    }
}

/// The checksum depends on which bytes there are and how often each occurs,
/// not on their order.
pub proof fn lemma_checksum_permutation(a: Seq<u8>, b: Seq<u8>)
    requires
        a.to_multiset() == b.to_multiset(),
    ensures
        xor_fold(a) == xor_fold(b),
    decreases a.len(),
{
    a.to_multiset_ensures();
    b.to_multiset_ensures();
    if a.len() > 0 {
        let last = a.last();
        let rest = a.drop_last();
        assert(a[a.len() - 1] == last);
        assert(a.contains(last));
        assert(a.to_multiset().count(last) > 0);
        assert(b.to_multiset().count(last) > 0);
        assert(b.contains(last));
        let at = choose|at: int| 0 <= at < b.len() && b[at] == last;
        let others = b.remove(at);
        assert(rest.to_multiset() =~= others.to_multiset()) by {
            rest.to_multiset_ensures();
            assert(rest.push(last) =~= a);
            assert(rest.to_multiset() =~= a.to_multiset().remove(last));
        }
        lemma_checksum_permutation(rest, others);
        let front = b.take(at);
        let back = b.skip(at + 1);
        assert(others =~= front + back);
        assert(b =~= front.push(last) + back);
        assert(front.push(last).drop_last() =~= front);
        lemma_checksum_concat(front, back);
        lemma_checksum_concat(front.push(last), back);
        lemma_xor_laws(xor_fold(front), last, xor_fold(back));
        lemma_xor_laws(last, xor_fold(back), 0u8);
        lemma_xor_laws(xor_fold(front), xor_fold(back), last);
    }
}

/// A message followed by its own checksum carries, as its last byte, the
/// checksum of everything before it, and the checksum of the whole is zero.
pub proof fn lemma_checksum_appended(message: Seq<u8>)
    ensures
        message.push(xor_fold(message)).last() == xor_fold(
            message.push(xor_fold(message)).drop_last(),
        ),
        xor_fold(message.push(xor_fold(message))) == 0u8,
{
    let framed = message.push(xor_fold(message));
    assert(framed.drop_last() =~= message);
    lemma_xor_laws(xor_fold(message), 0u8, 0u8);
}

} // verus!
