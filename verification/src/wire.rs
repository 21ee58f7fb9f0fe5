//! Fixed-width unsigned integers in network byte order.
use vstd::prelude::*;
use vstd::slice::slice_subrange;

verus! {

/// The number that a byte string denotes, most significant byte first.
pub open spec fn be_value(bytes: Seq<u8>) -> nat
    decreases bytes.len(),
{
    if bytes.len() == 0 {
        0
    } else {
        be_value(bytes.drop_last()) * 256 + bytes.last() as nat
    }
}

/// The `width` low bytes of `value`, most significant byte first.
pub open spec fn be_bytes(value: nat, width: nat) -> Seq<u8>
    decreases width,
{
    if width == 0 {
        Seq::empty()
    } else {
        be_bytes(value / 256, (width - 1) as nat).push((value % 256) as u8)
    }
}

/// The number of values that `width` bytes can hold.
pub open spec fn byte_capacity(width: nat) -> nat
    decreases width,
{
    if width == 0 {
        1
    } else {
        256 * byte_capacity((width - 1) as nat)
    }
}

/// Capacities of the widths in use.
pub proof fn lemma_byte_capacity_values()
    ensures
        byte_capacity(2) == 0x1_0000,
        byte_capacity(4) == 0x1_0000_0000,
        byte_capacity(8) == 0x1_0000_0000_0000_0000,
{
    reveal_with_fuel(byte_capacity, 9);
}

/// An encoding has exactly the requested width.
pub proof fn lemma_be_bytes_len(value: nat, width: nat)
    ensures
        be_bytes(value, width).len() == width,
    decreases width,
{
    if width > 0 {
        lemma_be_bytes_len(value / 256, (width - 1) as nat);
    }
}

/// A byte string denotes a number below the capacity of its width.
pub proof fn lemma_be_value_bound(bytes: Seq<u8>)
    ensures
        be_value(bytes) < byte_capacity(bytes.len()),
    decreases bytes.len(),
{
    if bytes.len() > 0 {
        lemma_be_value_bound(bytes.drop_last());
    }
}

/// Decoding an encoded number gives the number back.
pub proof fn lemma_be_value_of_bytes(value: nat, width: nat)
    requires
        value < byte_capacity(width),
    ensures
        be_value(be_bytes(value, width)) == value,
    decreases width,
{
    if width > 0 {
        let head = be_bytes(value / 256, (width - 1) as nat);
        lemma_be_value_of_bytes(value / 256, (width - 1) as nat);
        assert(be_bytes(value, width).drop_last() =~= head);
    }
}

/// Encoding a decoded number gives the bytes back.
pub proof fn lemma_be_bytes_of_value(bytes: Seq<u8>)
    ensures
        be_bytes(be_value(bytes), bytes.len()) == bytes,
    decreases bytes.len(),
{
    if bytes.len() > 0 {
        let head = bytes.drop_last();
        lemma_be_bytes_of_value(head);
        let value = be_value(bytes);
        assert(value / 256 == be_value(head));
        assert(value % 256 == bytes.last() as nat);
        assert(head.push(bytes.last()) =~= bytes);
    } else {
        assert(be_bytes(0, 0) =~= bytes);
    }
}

/// The digits of a number stand in network order: counted from the last byte, which is the
/// digit of ones, the byte at `place` is the digit of that power of 256.
pub proof fn law_network_order(value: nat, width: nat, place: nat)
    requires
        place < width,
    ensures
        be_bytes(value, width).len() == width,
        be_bytes(value, width)[width - 1 - place] == (value / byte_capacity(place)) % 256,
        byte_capacity(0) == 1,
        byte_capacity(place + 1) == 256 * byte_capacity(place),
    decreases width,
{
    lemma_be_bytes_len(value, width);
    let head = be_bytes(value / 256, (width - 1) as nat);
    lemma_be_bytes_len(value / 256, (width - 1) as nat);
    if place > 0 {
        let rest = (place - 1) as nat;
        law_network_order(value / 256, (width - 1) as nat, rest);
        let power = byte_capacity(rest);
        lemma_capacity_positive(rest);
        assert(value / byte_capacity(place) == (value / 256) / power) by {
            vstd::arithmetic::div_mod::lemma_div_denominator(value as int, 256, power as int);
        }
        assert(be_bytes(value, width)[width - 1 - place] == head[width - 1 - place]);
    } else {
        assert(byte_capacity(0) == 1);
        assert(value / byte_capacity(0) == value) by {
            vstd::arithmetic::div_mod::lemma_div_basics(value as int);
        }
    }
}

proof fn lemma_capacity_positive(width: nat)
    ensures
        byte_capacity(width) > 0,
    decreases width,
{
    if width > 0 {
        lemma_capacity_positive((width - 1) as nat);
    }
}

/// Appends the `width` low bytes of `value`.
pub fn push_be(out: &mut Vec<u8>, value: u64, width: usize)
    ensures
        final(out)@ == old(out)@ + be_bytes(value as nat, width as nat),
    decreases width,
{
    if width > 0 {
        push_be(out, value / 256, width - 1);
        out.push((value % 256) as u8);
    }
    assert(out@ =~= old(out)@ + be_bytes(value as nat, width as nat));
}

/// Appends a 16-bit integer.
pub fn push_u16(out: &mut Vec<u8>, value: u16)
    ensures
        final(out)@ == old(out)@ + be_bytes(value as nat, 2),
{
    push_be(out, value as u64, 2);
}

/// Appends a 32-bit integer.
pub fn push_u32(out: &mut Vec<u8>, value: u32)
    ensures
        final(out)@ == old(out)@ + be_bytes(value as nat, 4),
{
    push_be(out, value as u64, 4);
}

/// Appends a 64-bit integer.
pub fn push_u64(out: &mut Vec<u8>, value: u64)
    ensures
        final(out)@ == old(out)@ + be_bytes(value as nat, 8),
{
    push_be(out, value, 8);
}

/// Appends a run of bytes.
pub fn push_bytes(out: &mut Vec<u8>, bytes: &[u8])
    ensures
        final(out)@ == old(out)@ + bytes@,
{
    out.extend_from_slice(bytes);
    assert(out@ =~= old(out)@ + bytes@);
}

/// Reads the number held by all of `bytes`.
fn value_of(bytes: &[u8]) -> (value: u64)
    requires
        bytes@.len() <= 8,
    ensures
        value == be_value(bytes@),
{
    let mut value: u64 = 0;
    let mut i: usize = 0;
    while i < bytes.len()
        invariant
            i <= bytes@.len() <= 8,
            value == be_value(bytes@.take(i as int)),
        decreases bytes@.len() - i,
    {
        proof {
            let next = bytes@.take(i + 1);
            assert(next.drop_last() =~= bytes@.take(i as int));
            lemma_be_value_bound(next);
            reveal_with_fuel(byte_capacity, 9);
        }
        value = value * 256 + bytes[i] as u64;
        i += 1;
    }
    assert(bytes@.take(i as int) =~= bytes@);
    value
}

/// Reads the 16-bit integer at `at`.
pub fn read_u16(bytes: &[u8], at: usize) -> (value: u16)
    requires
        at + 2 <= bytes.len(),
    ensures
        value == be_value(bytes@.subrange(at as int, at + 2)),
{
    let value = value_of(slice_subrange(bytes, at, at + 2));
    proof {
        lemma_be_value_bound(bytes@.subrange(at as int, at + 2));
        lemma_byte_capacity_values();
    }
    value as u16
}

/// Reads the 32-bit integer at `at`.
pub fn read_u32(bytes: &[u8], at: usize) -> (value: u32)
    requires
        at + 4 <= bytes.len(),
    ensures
        value == be_value(bytes@.subrange(at as int, at + 4)),
{
    let value = value_of(slice_subrange(bytes, at, at + 4));
    proof {
        lemma_be_value_bound(bytes@.subrange(at as int, at + 4));
        lemma_byte_capacity_values();
    }
    value as u32
}

/// Reads the 64-bit integer at `at`.
pub fn read_u64(bytes: &[u8], at: usize) -> (value: u64)
    requires
        at + 8 <= bytes.len(),
    ensures
        value == be_value(bytes@.subrange(at as int, at + 8)),
{
    value_of(slice_subrange(bytes, at, at + 8))
}

/// Tells whether two byte strings are the same.
pub fn bytes_equal(left: &[u8], right: &[u8]) -> (same: bool)
    ensures
        same == (left@ == right@),
{
    if left.len() != right.len() {
        return false;
    }
    let mut i: usize = 0;
    while i < left.len()
        invariant
            i <= left@.len(),
            left@.len() == right@.len(),
            forall|k: int| 0 <= k < i ==> left@[k] == right@[k],
        decreases left@.len() - i,
    {
        if left[i] != right[i] {
            return false;
        }
        i += 1;
    }
    assert(left@ =~= right@);
    true
}

} // verus!
