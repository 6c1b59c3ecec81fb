//! The CRC-32 checksum that guards records, segment headers and checkpoints,
//! as the `crc32fast` crate computes it.

use vstd::prelude::*;

verus! {

/// The running state of a checksum, `crc32fast::Hasher`.
#[verifier::external_type_specification]
#[verifier::external_body]
pub struct ExHasher(crc32fast::Hasher);

/// A CRC-32 register after one bit of input has been taken into it: a shift, and
/// the reflected polynomial of the IEEE standard where a bit falls out.
pub open spec fn after_bit(register: u32) -> u32 {
    if register & 1 == 1 {
        (register >> 1) ^ 0xedb8_8320
    } else {
        register >> 1
    }
}

/// A CRC-32 register after one byte of input.
pub open spec fn after_byte(register: u32, byte: u8) -> u32 {
    let r = register ^ (byte as u32);
    after_bit(after_bit(after_bit(after_bit(after_bit(after_bit(after_bit(after_bit(r))))))))
}

/// The CRC-32 register after a byte string. It begins with every bit set.
pub open spec fn register_after(bytes: Seq<u8>) -> u32
    decreases bytes.len(),
{
    if bytes.len() == 0 {
        0xffff_ffff
    } else {
        after_byte(register_after(bytes.drop_last()), bytes.last())
    }
}

/// The CRC-32 (IEEE) checksum of a byte string: the register behind it, with
/// every bit inverted.
#[verifier::opaque]
pub open spec fn crc32(bytes: Seq<u8>) -> u32 {
    register_after(bytes) ^ 0xffff_ffff
}

/// The bytes that a hasher has been fed since it was created.
pub uninterp spec fn hasher_input(hasher: crc32fast::Hasher) -> Seq<u8>;

/// `crc32fast::hash`: the CRC-32 (IEEE) checksum of one byte slice. It feeds the
/// slice to a fresh hasher and finalizes it.
pub assume_specification[ crc32fast::hash ](buf: &[u8]) -> (sum: u32)
    ensures
        sum == crc32(buf@),
;

/// `crc32fast::Hasher::new`: a hasher that has been fed nothing.
pub assume_specification[ crc32fast::Hasher::new ]() -> (hasher: crc32fast::Hasher)
    ensures
        hasher_input(hasher) == Seq::<u8>::empty(),
;

/// `crc32fast::Hasher::update`: feeds more bytes behind those fed before. The
/// hasher counts them in a `u64`, so the count has to fit.
pub assume_specification[ crc32fast::Hasher::update ](
    hasher: &mut crc32fast::Hasher,
    buf: &[u8],
)
    requires
        hasher_input(*old(hasher)).len() + buf@.len() <= u64::MAX,
    ensures
        hasher_input(*final(hasher)) == hasher_input(*old(hasher)) + buf@,
;

/// `crc32fast::Hasher::finalize`: the CRC-32 (IEEE) checksum of all the bytes
/// fed, however they were divided among the updates.
pub assume_specification[ crc32fast::Hasher::finalize ](hasher: crc32fast::Hasher) -> (sum: u32)
    ensures
        sum == crc32(hasher_input(hasher)),
;

/// Different registers stay different.
proof fn lemma_registers_stay_apart(a: u32, b: u32)
    requires
        a != b,
    ensures
        after_bit(a) != after_bit(b),
{
    assert(after_bit(a) != after_bit(b)) by (bit_vector)
        requires
            a != b,
    ;
}

proof fn lemma_bytes_stay_apart(a: u32, x: u8, b: u32, y: u8)
    requires
        a ^ (x as u32) != b ^ (y as u32),
    ensures
        after_byte(a, x) != after_byte(b, y),
{
    let r = a ^ (x as u32);
    let s = b ^ (y as u32);
    lemma_registers_stay_apart(r, s);
    let (r, s) = (after_bit(r), after_bit(s));
    lemma_registers_stay_apart(r, s);
    let (r, s) = (after_bit(r), after_bit(s));
    lemma_registers_stay_apart(r, s);
    let (r, s) = (after_bit(r), after_bit(s));
    lemma_registers_stay_apart(r, s);
    let (r, s) = (after_bit(r), after_bit(s));
    lemma_registers_stay_apart(r, s);
    let (r, s) = (after_bit(r), after_bit(s));
    lemma_registers_stay_apart(r, s);
    let (r, s) = (after_bit(r), after_bit(s));
    lemma_registers_stay_apart(r, s);
    let (r, s) = (after_bit(r), after_bit(s));
    lemma_registers_stay_apart(r, s);
}

/// Whether two byte strings differ in the one byte at `i`.
pub open spec fn differ_at(a: Seq<u8>, b: Seq<u8>, i: int) -> bool {
    &&& a.len() == b.len()
    &&& 0 <= i < a.len()
    &&& a[i] != b[i]
    &&& forall|k: int| 0 <= k < a.len() && k != i ==> a[k] == b[k]
}

proof fn lemma_register_differs(a: Seq<u8>, b: Seq<u8>, i: int)
    requires
        differ_at(a, b, i),
    ensures
        register_after(a) != register_after(b),
    decreases a.len(),
{
    let r = register_after(a.drop_last());
    let s = register_after(b.drop_last());
    let (x, y) = (a.last(), b.last());
    if i == a.len() - 1 {
        assert(a.drop_last() =~= b.drop_last());
        assert(r ^ (x as u32) != r ^ (y as u32)) by (bit_vector)
            requires
                x != y,
        ;
    } else {
        lemma_register_differs(a.drop_last(), b.drop_last(), i);
        assert(x == y);
        assert(r ^ (x as u32) != s ^ (x as u32)) by (bit_vector)
            requires
                r != s,
        ;
    }
    lemma_bytes_stay_apart(r, x, s, y);
}

/// A damaged byte changes the checksum, whatever the damage.
pub proof fn damaged_byte_changes_the_checksum(a: Seq<u8>, b: Seq<u8>, i: int)
    requires
        differ_at(a, b, i),
    ensures
        crc32(a) != crc32(b),
{
    reveal(crc32);
    lemma_register_differs(a, b, i);
    let r = register_after(a);
    let s = register_after(b);
    assert(r ^ 0xffff_ffff != s ^ 0xffff_ffff) by (bit_vector)
        requires
            r != s,
    ;
}

proof fn lemma_one_more_byte(bytes: Seq<u8>, byte: u8)
    ensures
        register_after(bytes.push(byte)) == after_byte(register_after(bytes), byte),
{
    assert(bytes.push(byte).drop_last() =~= bytes);
}

/// The checksum of the digits `123456789` is the check value of the standard.
pub proof fn check_value()
    ensures
        crc32(seq![0x31u8, 0x32, 0x33, 0x34, 0x35, 0x36, 0x37, 0x38, 0x39]) == 0xcbf4_3926,
{
    reveal(crc32);
    let d0 = Seq::<u8>::empty();
    let d1 = d0.push(0x31);
    lemma_one_more_byte(d0, 0x31);
    assert(after_byte(0xffff_ffff, 0x31) == 0x7c23_1048) by (bit_vector);
    let d2 = d1.push(0x32);
    lemma_one_more_byte(d1, 0x32);
    assert(after_byte(0x7c23_1048, 0x32) == 0xb0ac_bb32) by (bit_vector);
    let d3 = d2.push(0x33);
    lemma_one_more_byte(d2, 0x33);
    assert(after_byte(0xb0ac_bb32, 0x33) == 0x77b7_9c2d) by (bit_vector);
    let d4 = d3.push(0x34);
    lemma_one_more_byte(d3, 0x34);
    assert(after_byte(0x77b7_9c2d, 0x34) == 0x641c_1f5c) by (bit_vector);
    let d5 = d4.push(0x35);
    lemma_one_more_byte(d4, 0x35);
    assert(after_byte(0x641c_1f5c, 0x35) == 0x340a_c5e3) by (bit_vector);
    let d6 = d5.push(0x36);
    lemma_one_more_byte(d5, 0x36);
    assert(after_byte(0x340a_c5e3, 0x36) == 0xf68d_2c9e) by (bit_vector);
    let d7 = d6.push(0x37);
    lemma_one_more_byte(d6, 0x37);
    assert(after_byte(0xf68d_2c9e, 0x37) == 0xaffc_9660) by (bit_vector);
    let d8 = d7.push(0x38);
    lemma_one_more_byte(d7, 0x38);
    assert(after_byte(0xaffc_9660, 0x38) == 0x651f_2550) by (bit_vector);
    let d9 = d8.push(0x39);
    lemma_one_more_byte(d8, 0x39);
    assert(after_byte(0x651f_2550, 0x39) == 0x340b_c6d9) by (bit_vector);
    assert(d9 =~= seq![0x31u8, 0x32, 0x33, 0x34, 0x35, 0x36, 0x37, 0x38, 0x39]);
    assert(0x340b_c6d9u32 ^ 0xffff_ffff == 0xcbf4_3926u32) by (bit_vector);
}

} // verus!
