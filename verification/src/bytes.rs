//! Fixed-width integers as byte sequences, and small byte-vector helpers.
use vstd::prelude::*;

verus! {

/// The `width` low-order bytes of `value`, least significant first.
pub open spec fn le_bytes(value: nat, width: nat) -> Seq<u8>
    decreases width,
{
    if width == 0 {
        Seq::empty()
    } else {
        seq![(value % 256) as u8] + le_bytes(value / 256, (width - 1) as nat)
    }
}

/// The number whose bytes, least significant first, are `bytes`.
pub open spec fn from_le(bytes: Seq<u8>) -> nat
    decreases bytes.len(),
{
    if bytes.len() == 0 {
        0
    } else {
        bytes[0] as nat + 256 * from_le(bytes.drop_first())
    }
}

/// The `width` low-order bytes of `value`, most significant first.
pub open spec fn be_bytes(value: nat, width: nat) -> Seq<u8>
    decreases width,
{
    if width == 0 {
        Seq::empty()
    } else {
        be_bytes(value / 256, (width - 1) as nat).push((value % 256) as u8)
    }
}

/// The number whose bytes, most significant first, are `bytes`.
pub open spec fn from_be(bytes: Seq<u8>) -> nat
    decreases bytes.len(),
{
    if bytes.len() == 0 {
        0
    } else {
        from_be(bytes.drop_last()) * 256 + bytes.last() as nat
    }
}

/// One past the largest number that `width` bytes hold.
pub open spec fn byte_limit(width: nat) -> nat
    decreases width,
{
    if width == 0 {
        1
    } else {
        256 * byte_limit((width - 1) as nat)
    }
}

/// A run of `count` zero bytes.
pub open spec fn zeros(count: nat) -> Seq<u8> {
    Seq::new(count, |i: int| 0u8)
}

/// The little-endian number stored in `width` bytes at `offset`.
pub open spec fn le_field(bytes: Seq<u8>, offset: int, width: int) -> nat {
    from_le(bytes.subrange(offset, offset + width))
}

/// The big-endian number stored in `width` bytes at `offset`.
pub open spec fn be_field(bytes: Seq<u8>, offset: int, width: int) -> nat {
    from_be(bytes.subrange(offset, offset + width))
}

pub proof fn lemma_byte_limits()
    ensures
        byte_limit(1) == 0x100,
        byte_limit(2) == 0x1_0000,
        byte_limit(4) == 0x1_0000_0000,
        byte_limit(8) == 0x1_0000_0000_0000_0000,
{
    reveal_with_fuel(byte_limit, 9);
}

pub proof fn lemma_byte_limit_mono(a: nat, b: nat)
    requires
        a <= b,
    ensures
        byte_limit(a) <= byte_limit(b),
        1 <= byte_limit(a),
    decreases b,
{
    if a < b {
        lemma_byte_limit_mono(a, (b - 1) as nat);
    } else if b > 0 {
        lemma_byte_limit_mono((a - 1) as nat, (b - 1) as nat);
    }
}

/// Writing a number and reading it back gives the number.
pub proof fn lemma_le_round_trip(value: nat, width: nat)
    ensures
        le_bytes(value, width).len() == width,
        value < byte_limit(width) ==> from_le(le_bytes(value, width)) == value,
    decreases width,
{
    if width > 0 {
        lemma_le_round_trip(value / 256, (width - 1) as nat);
        assert(le_bytes(value, width).drop_first() =~= le_bytes(value / 256, (width - 1) as nat));
        assert(value % 256 + 256 * (value / 256) == value) by (nonlinear_arith);
        if value < byte_limit(width) {
            assert(value / 256 < byte_limit((width - 1) as nat));
        }
    }
}

/// Reading bytes and writing the number back gives the bytes.
pub proof fn lemma_le_canonical(bytes: Seq<u8>)
    ensures
        from_le(bytes) < byte_limit(bytes.len()),
        le_bytes(from_le(bytes), bytes.len()) == bytes,
    decreases bytes.len(),
{
    if bytes.len() > 0 {
        lemma_le_canonical(bytes.drop_first());
        let rest: nat = from_le(bytes.drop_first());
        let value: nat = from_le(bytes);
        let low: nat = bytes[0] as nat;
        assert(value % 256 == low && value / 256 == rest) by (nonlinear_arith)
            requires
                value == low + 256 * rest,
                low < 256,
        ;
        assert(le_bytes(value, bytes.len()) =~= bytes);
    }
}

pub proof fn lemma_zeros(count: nat)
    ensures
        from_le(zeros(count)) == 0,
    decreases count,
{
    if count > 0 {
        lemma_zeros((count - 1) as nat);
        assert(zeros(count).drop_first() =~= zeros((count - 1) as nat));
    }
}

/// The low-order byte comes first in little-endian order and last in big-endian order.
pub proof fn law_byte_orders(value: nat, width: nat)
    ensures
        le_bytes(value, width).len() == width,
        be_bytes(value, width).len() == width,
        width > 0 ==> le_bytes(value, width)[0] == value % 256 && le_bytes(value, width).skip(1)
            == le_bytes(value / 256, (width - 1) as nat),
        width > 0 ==> be_bytes(value, width).last() == value % 256 && be_bytes(
            value,
            width,
        ).drop_last() == be_bytes(value / 256, (width - 1) as nat),
{
    lemma_le_round_trip(value, width);
    lemma_be_round_trip(value, width);
    if width > 0 {
        assert(le_bytes(value, width).skip(1) =~= le_bytes(value / 256, (width - 1) as nat));
        assert(be_bytes(value, width).drop_last() =~= be_bytes(value / 256, (width - 1) as nat));
    }
}

/// Writing a number and reading it back gives the number.
pub proof fn lemma_be_round_trip(value: nat, width: nat)
    ensures
        be_bytes(value, width).len() == width,
        value < byte_limit(width) ==> from_be(be_bytes(value, width)) == value,
    decreases width,
{
    if width > 0 {
        lemma_be_round_trip(value / 256, (width - 1) as nat);
        assert(be_bytes(value, width).drop_last() =~= be_bytes(value / 256, (width - 1) as nat));
        assert(value % 256 + 256 * (value / 256) == value) by (nonlinear_arith);
        if value < byte_limit(width) {
            assert(value / 256 < byte_limit((width - 1) as nat));
        }
    }
}

/// Reading bytes and writing the number back gives the bytes.
pub proof fn lemma_be_canonical(bytes: Seq<u8>)
    ensures
        from_be(bytes) < byte_limit(bytes.len()),
        be_bytes(from_be(bytes), bytes.len()) == bytes,
    decreases bytes.len(),
{
    if bytes.len() > 0 {
        lemma_be_canonical(bytes.drop_last());
        let rest: nat = from_be(bytes.drop_last());
        let value: nat = from_be(bytes);
        let low: nat = bytes.last() as nat;
        assert(value % 256 == low && value / 256 == rest) by (nonlinear_arith)
            requires
                value == low + 256 * rest,
                low < 256,
        ;
        assert(be_bytes(value, bytes.len()) =~= bytes);
    }
}

/// The low-order bytes of a number depend only on what they can hold of it.
pub proof fn lemma_be_low(value: nat, width: nat)
    ensures
        be_bytes(value % byte_limit(width), width) == be_bytes(value, width),
        byte_limit(width) > 0,
    decreases width,
{
    if width > 0 {
        let below = byte_limit((width - 1) as nat);
        lemma_be_low(value / 256, (width - 1) as nat);
        vstd::arithmetic::div_mod::lemma_mod_breakdown(value as int, 256, below as int);
        let low = value % byte_limit(width);
        assert(low == 256 * ((value / 256) % below) + value % 256);
        assert(low / 256 == (value / 256) % below);
        assert(low % 256 == value % 256);
    }
}

/// Append `value` in `width` little-endian bytes.
pub fn put_le(out: &mut Vec<u8>, value: u64, width: usize)
    ensures
        final(out)@ == old(out)@ + le_bytes(value as nat, width as nat),
{
    let mut rest: u64 = value;
    let mut left: usize = width;
    while left > 0
        invariant
            left <= width,
            out@ + le_bytes(rest as nat, left as nat) == old(out)@ + le_bytes(
                value as nat,
                width as nat,
            ),
        decreases left,
    {
        let ghost before = out@;
        let ghost low = (rest as nat % 256) as u8;
        out.push((rest % 256) as u8);
        rest = rest / 256;
        left = left - 1;
        assert(out@ + le_bytes(rest as nat, left as nat) =~= before + (seq![low] + le_bytes(
            rest as nat,
            left as nat,
        )));
    }
    assert(out@ + le_bytes(rest as nat, 0) =~= out@);
}

/// Append `value` in `width` big-endian bytes.
pub fn put_be(out: &mut Vec<u8>, value: u64, width: usize)
    ensures
        final(out)@ == old(out)@ + be_bytes(value as nat, width as nat),
    decreases width,
{
    if width > 0 {
        put_be(out, value / 256, width - 1);
        out.push((value % 256) as u8);
    }
    assert(out@ =~= old(out)@ + be_bytes(value as nat, width as nat));
}

/// Append `count` zero bytes.
pub fn put_zeros(out: &mut Vec<u8>, count: usize)
    ensures
        final(out)@ == old(out)@ + zeros(count as nat),
{
    let mut done: usize = 0;
    while done < count
        invariant
            done <= count,
            out@ == old(out)@ + zeros(done as nat),
        decreases count - done,
    {
        out.push(0);
        done = done + 1;
        assert(out@ =~= old(out)@ + zeros(done as nat));
    }
}

/// Append the bytes of `tail`.
pub fn put_bytes(out: &mut Vec<u8>, tail: &[u8])
    ensures
        final(out)@ == old(out)@ + tail@,
{
    let mut done: usize = 0;
    while done < tail.len()
        invariant
            done <= tail@.len(),
            out@ == old(out)@ + tail@.take(done as int),
        decreases tail@.len() - done,
    {
        out.push(tail[done]);
        done = done + 1;
        assert(out@ =~= old(out)@ + tail@.take(done as int));
    }
    assert(tail@.take(done as int) =~= tail@);
}

/// The little-endian number in `width` bytes at `offset`.
pub fn get_le(bytes: &[u8], offset: usize, width: usize) -> (value: u64)
    requires
        offset + width <= bytes@.len(),
        width <= 8,
    ensures
        value as nat == le_field(bytes@, offset as int, width as int),
        value < byte_limit(width as nat),
{
    let length: usize = bytes.len();
    let mut value: u64 = 0;
    let mut left: usize = width;
    proof {
        assert(bytes@.subrange(offset + width, offset + width) =~= Seq::empty());
    }
    while left > 0
        invariant
            left <= width <= 8,
            offset + width <= length == bytes@.len(),
            value as nat == from_le(bytes@.subrange(offset + left, offset + width)),
            value < byte_limit((width - left) as nat),
        decreases left,
    {
        proof {
            let tail = bytes@.subrange(offset + left - 1, offset + width);
            assert(tail.drop_first() =~= bytes@.subrange(offset + left, offset + width));
            lemma_le_canonical(tail);
            lemma_byte_limits();
            lemma_byte_limit_mono((width - left + 1) as nat, 8);
            assert(value * 256 + bytes@[offset + left - 1] == from_le(tail));
        }
        left = left - 1;
        value = value * 256 + bytes[offset + left] as u64;
    }
    proof {
        assert(bytes@.subrange(offset + 0, offset + width) == bytes@.subrange(
            offset as int,
            offset + width,
        ));
        lemma_byte_limit_mono(0, width as nat);
    }
    value
}

/// The big-endian number in `width` bytes at `offset`.
pub fn get_be(bytes: &[u8], offset: usize, width: usize) -> (value: u64)
    requires
        offset + width <= bytes@.len(),
        width <= 8,
    ensures
        value as nat == be_field(bytes@, offset as int, width as int),
        value < byte_limit(width as nat),
{
    let length: usize = bytes.len();
    let mut value: u64 = 0;
    let mut done: usize = 0;
    proof {
        assert(bytes@.subrange(offset as int, offset as int) =~= Seq::empty());
    }
    while done < width
        invariant
            done <= width <= 8,
            offset + width <= length == bytes@.len(),
            value as nat == from_be(bytes@.subrange(offset as int, offset + done)),
            value < byte_limit(done as nat),
        decreases width - done,
    {
        proof {
            let head = bytes@.subrange(offset as int, offset + done + 1);
            assert(head.drop_last() =~= bytes@.subrange(offset as int, offset + done));
            lemma_be_canonical(head);
            lemma_byte_limits();
            lemma_byte_limit_mono((done + 1) as nat, 8);
        }
        value = value * 256 + bytes[offset + done] as u64;
        done = done + 1;
    }
    value
}

/// Whether two byte strings are the same.
pub fn same_bytes(left: &[u8], right: &[u8]) -> (same: bool)
    ensures
        same == (left@ == right@),
{
    if left.len() != right.len() {
        return false;
    }
    let mut index: usize = 0;
    while index < left.len()
        invariant
            index <= left@.len() == right@.len(),
            left@.take(index as int) == right@.take(index as int),
        decreases left@.len() - index,
    {
        if left[index] != right[index] {
            assert(left@[index as int] != right@[index as int]);
            return false;
        }
        index = index + 1;
        assert(left@.take(index as int) =~= right@.take(index as int)) by {
            assert forall|i: int| 0 <= i < index implies left@[i] == right@[i] by {
                if i < index - 1 {
                    assert(left@.take(index - 1)[i] == right@.take(index - 1)[i]);
                }
            }
        }
    }
    assert(left@.take(index as int) =~= left@);
    assert(right@.take(index as int) =~= right@);
    true
}

/// Whether every byte is zero.
pub fn all_zero(bytes: &[u8]) -> (zero: bool)
    ensures
        zero == (bytes@ == zeros(bytes@.len())),
{
    let mut index: usize = 0;
    while index < bytes.len()
        invariant
            index <= bytes@.len(),
            forall|i: int| 0 <= i < index ==> bytes@[i] == 0,
        decreases bytes@.len() - index,
    {
        if bytes[index] != 0 {
            assert(zeros(bytes@.len())[index as int] == 0);
            return false;
        }
        index = index + 1;
    }
    assert(bytes@ =~= zeros(bytes@.len()));
    true
}

/// An owned copy of `bytes[start..end]`.
pub fn copy_range(bytes: &[u8], start: usize, end: usize) -> (copy: Vec<u8>)
    requires
        start <= end <= bytes@.len(),
    ensures
        copy@ == bytes@.subrange(start as int, end as int),
{
    let mut copy: Vec<u8> = Vec::new();
    let mut index: usize = start;
    while index < end
        invariant
            start <= index <= end <= bytes@.len(),
            copy@ == bytes@.subrange(start as int, index as int),
        decreases end - index,
    {
        copy.push(bytes[index]);
        index = index + 1;
        assert(copy@ =~= bytes@.subrange(start as int, index as int));
    }
    copy
}

/// An owned copy of `bytes`.
pub fn copy_bytes(bytes: &[u8]) -> (copy: Vec<u8>)
    ensures
        copy@ == bytes@,
{
    let copy = copy_range(bytes, 0, bytes.len());
    assert(bytes@.subrange(0, bytes@.len() as int) =~= bytes@);
    copy
}

/// Whether a byte has one bit set and no other.
pub open spec fn is_bit(mask: u8) -> bool {
    mask == 1 || mask == 2 || mask == 4 || mask == 8 || mask == 16 || mask == 32 || mask == 64 || mask
        == 128
}

/// Bytes with the bits of a mask turned over in one of them.
pub open spec fn turned(bytes: Seq<u8>, at: int, mask: u8) -> Seq<u8> {
    bytes.update(at, bytes[at] ^ mask)
}

/// The CRC-32 checksum of a byte string.
pub uninterp spec fn crc32_of(bytes: Seq<u8>) -> u32;

/// `crc32fast::hash`: the checksum depends on the bytes alone. It is the remainder of the bytes, as a
/// polynomial, by one of degree 32 that no power of `x` is a multiple of, so bytes that differ in one
/// bit differ in their checksums.
#[verifier::external_body]
pub(crate) fn crc32(bytes: &[u8]) -> (checksum: u32)
    ensures
        checksum == crc32_of(bytes@),
        forall|at: int, mask: u8|
            0 <= at < bytes@.len() && is_bit(mask) ==> crc32_of(#[trigger] turned(bytes@, at, mask))
                != checksum,
{
    crc32fast::hash(bytes)
}

} // verus!
