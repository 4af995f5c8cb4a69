//! Most-significant-bit-first bit fields, read with `bitreader` and written
//! with `rust_bitwriter`.
use vstd::prelude::*;
use bitreader::{BitReader, BitReaderError};
use rust_bitwriter::BitWriter;

verus! {

/// The error of `bitreader`, carried through without looking inside.
#[verifier::external_type_specification]
#[verifier::external_body]
pub struct ExBitReaderError(BitReaderError);

/// The writer of `rust_bitwriter`; what it holds is `written_bits`.
#[verifier::external_type_specification]
#[verifier::external_body]
pub struct ExBitWriter(BitWriter);

/// `std::io::Error`, which the writer's methods return.
#[verifier::external_type_specification]
#[verifier::external_body]
pub struct ExIoError(std::io::Error);

/// `2` to the power `n`.
pub open spec fn two_pow(n: nat) -> nat
    decreases n,
{
    if n == 0 {
        1
    } else {
        2 * two_pow((n - 1) as nat)
    }
}

/// Bit `i` of a byte string, counting from the most significant bit of the first byte.
pub open spec fn bit_of(b: Seq<u8>, i: int) -> bool {
    (b[i / 8] >> ((7 - i % 8) as u8)) & 1u8 == 1u8
}

/// The bits of a byte string, most significant bit of each byte first.
pub open spec fn bits_of(b: Seq<u8>) -> Seq<bool> {
    Seq::new(8 * b.len(), |i: int| bit_of(b, i))
}

/// The unsigned number that a bit string spells, most significant bit first.
pub open spec fn bits_value(s: Seq<bool>) -> nat
    decreases s.len(),
{
    if s.len() == 0 {
        0
    } else {
        2 * bits_value(s.drop_last()) + if s.last() {
            1nat
        } else {
            0nat
        }
    }
}

/// The low `n` bits of `v`, most significant first.
pub open spec fn value_bits(v: nat, n: nat) -> Seq<bool>
    decreases n,
{
    if n == 0 {
        Seq::empty()
    } else {
        value_bits(v / 2, (n - 1) as nat).push(v % 2 == 1)
    }
}

/// The number held by `width` bits of `b` starting at bit `pos`.
pub open spec fn field_value(b: Seq<u8>, pos: int, width: int) -> nat {
    bits_value(bits_of(b).subrange(pos, pos + width))
}

/// The bits that a `rust_bitwriter::BitWriter` has taken so far, in order.
pub uninterp spec fn written_bits(w: BitWriter) -> Seq<bool>;

/// Relies on `BitWriter::new`: a fresh writer holds no bits.
pub assume_specification[ BitWriter::new ]() -> (w: BitWriter)
    ensures
        written_bits(w) == Seq::<bool>::empty(),
;

/// Relies on `BitWriter::write_u64`: for at most 64 bits it succeeds and
/// appends the low `bit_count` bits of `v`, most significant first.
pub assume_specification[ BitWriter::write_u64 ](
    w: &mut BitWriter,
    v: u64,
    bit_count: u8,
) -> (r: std::io::Result<()>)
    requires
        written_bits(*old(w)).len() + bit_count <= u64::MAX,
    ensures
        bit_count <= 64 ==> r.is_ok() && written_bits(*final(w)) == written_bits(*old(w))
            + value_bits(v as nat, bit_count as nat),
;

/// Relies on `BitWriter::close`: it pads with zero bits up to the next byte boundary.
pub assume_specification[ BitWriter::close ](w: &mut BitWriter) -> (r: std::io::Result<()>)
    requires
        written_bits(*old(w)).len() + 8 <= u64::MAX,
    ensures
        r.is_ok(),
        written_bits(*final(w)) == written_bits(*old(w)) + value_bits(
            0,
            ((8 - written_bits(*old(w)).len() % 8) % 8) as nat,
        ),
;

/// Relies on `BitWriter::data`: the complete bytes written so far.
pub assume_specification[ BitWriter::data ](w: &BitWriter) -> (r: &Vec<u8>)
    ensures
        r@.len() == written_bits(*w).len() / 8,
        bits_of(r@) == written_bits(*w).subrange(0, 8 * (written_bits(*w).len() / 8) as int),
;

/// Relies on bitreader's `BitReader::new`, `BitReader::skip` and
/// `BitReader::read_u64`: the `width` bits of `buf` from bit `pos` on, read
/// most significant first, or an error when they run past the end.
#[verifier::external_body]
fn read_bits(buf: &[u8], pos: u64, width: u8) -> (r: Result<u64, BitReaderError>)
    requires
        width <= 64,
        8 * buf@.len() + 64 <= u64::MAX,
    ensures
        r.is_ok() == (pos + width <= 8 * buf@.len()),
        r.is_ok() ==> r.unwrap() == field_value(buf@, pos as int, width as int),
{
    let mut reader = BitReader::new(buf);
    reader.skip(pos)?;
    reader.read_u64(width)
}

pub proof fn lemma_value_bits_len(v: nat, n: nat)
    ensures
        value_bits(v, n).len() == n,
    decreases n,
{
    if n > 0 {
        lemma_value_bits_len(v / 2, (n - 1) as nat);
    }
}

/// Reading back the low `n` bits of a number below `2^n` gives the number.
pub proof fn lemma_value_bits_round_trip(v: nat, n: nat)
    requires
        v < two_pow(n),
    ensures
        bits_value(value_bits(v, n)) == v,
        value_bits(v, n).len() == n,
    decreases n,
{
    lemma_value_bits_len(v, n);
    if n > 0 {
        lemma_value_bits_round_trip(v / 2, (n - 1) as nat);
        assert(value_bits(v, n).drop_last() == value_bits(v / 2, (n - 1) as nat));
    }
}

/// A bit string of length `n` spells a number below `2^n`.
pub proof fn lemma_bits_value_bound(s: Seq<bool>)
    ensures
        bits_value(s) < two_pow(s.len()),
    decreases s.len(),
{
    if s.len() > 0 {
        lemma_bits_value_bound(s.drop_last());
    }
}

/// Reads `width` bits at bit `pos`; the caller knows they are there.
pub fn read_field(buf: &[u8], pos: u64, width: u8) -> (r: u64)
    requires
        width <= 64,
        8 * buf@.len() + 64 <= u64::MAX,
        pos + width <= 8 * buf@.len(),
    ensures
        r == field_value(buf@, pos as int, width as int),
{
    proof {
        lemma_bits_value_bound(bits_of(buf@).subrange(pos as int, pos + width));
        assert(two_pow(width as nat) <= two_pow(64)) by {
            lemma_two_pow_mono(width as nat, 64);
        }
        lemma_two_pow_64();
    }
    match read_bits(buf, pos, width) {
        Ok(v) => v,
        Err(_) => 0,
    }
}

pub proof fn lemma_two_pow_add(a: nat, b: nat)
    ensures
        two_pow(a + b) == two_pow(a) * two_pow(b),
    decreases a,
{
    if a > 0 {
        let am1 = (a - 1) as nat;
        lemma_two_pow_add(am1, b);
        assert(two_pow(a + b) == 2 * two_pow(am1 + b));
        assert(two_pow(a) == 2 * two_pow(am1));
        assert(two_pow(a) * two_pow(b) == 2 * (two_pow(am1) * two_pow(b))) by (nonlinear_arith)
            requires
                two_pow(a) == 2 * two_pow(am1),
        ;
        assert(two_pow(a + b) == two_pow(a) * two_pow(b));
    } else {
        assert(two_pow(0) == 1);
        assert(two_pow(a) * two_pow(b) == two_pow(b)) by (nonlinear_arith)
            requires
                two_pow(a) == 1,
        ;
    }
}

pub proof fn lemma_two_pow_64()
    ensures
        two_pow(64) == 0x1_0000_0000_0000_0000,
{
    reveal_with_fuel(two_pow, 9);
    assert(two_pow(8) == 256);
    lemma_two_pow_add(8, 8);
    assert(two_pow(16) == 0x1_0000);
    lemma_two_pow_add(16, 16);
    assert(two_pow(32) == 0x1_0000_0000);
    lemma_two_pow_add(32, 32);
}

pub proof fn lemma_two_pow_mono(a: nat, b: nat)
    requires
        a <= b,
    ensures
        two_pow(a) <= two_pow(b),
    decreases b,
{
    if a < b {
        lemma_two_pow_mono(a, (b - 1) as nat);
    }
}

} // verus!
