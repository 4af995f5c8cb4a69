//! The fixed 12-byte message header.
use vstd::prelude::*;
use vstd::slice::{slice_subrange, slice_to_vec};
use rust_bitwriter::BitWriter;
use crate::DnsError;
use crate::bits::{
    bits_of, field_value, lemma_value_bits_len, lemma_value_bits_round_trip, read_field,
    two_pow, value_bits, written_bits,
};

verus! {

/// The number of bytes in an encoded header.
pub const HEADER_LEN: usize = 12;

/// The header of a message, one field per bit field of the wire format.
#[derive(Debug, Clone, Copy, PartialEq, Eq, Structural, Default)]
pub struct Header {
    pub packet_id: u16,
    pub qr_indicator: bool,
    /// Four bits on the wire.
    pub opcode: u8,
    pub aa: bool,
    pub truncation: bool,
    pub recursion_desired: bool,
    pub recursion_available: bool,
    /// Three bits on the wire.
    pub reserved: u8,
    /// Four bits on the wire.
    pub r_code: u8,
    pub question_count: u16,
    pub answer_record_count: u16,
    pub authoritative_record_count: u16,
    pub additional_record_count: u16,
}

pub open spec fn bool_nat(b: bool) -> nat {
    if b {
        1
    } else {
        0
    }
}

impl Header {
    /// Every sub-byte field fits its width.
    pub open spec fn wf(self) -> bool {
        self.opcode < 16 && self.reserved < 8 && self.r_code < 16
    }

    /// The header as a response: marked as one, with the response code that
    /// its opcode calls for, without recursion available and with the
    /// reserved bits cleared. Everything else is kept.
    pub open spec fn response_spec(self) -> Header {
        Header {
            qr_indicator: true,
            r_code: if self.opcode == 0 {
                0
            } else {
                4
            },
            recursion_available: false,
            reserved: 0,
            ..self
        }
    }
}

/// The 96 bits of an encoded header, field by field; the reserved bits are zero.
pub open spec fn header_bits(h: Header) -> Seq<bool> {
    value_bits(h.packet_id as nat, 16) + value_bits(bool_nat(h.qr_indicator), 1) + value_bits(
        h.opcode as nat,
        4,
    ) + value_bits(bool_nat(h.aa), 1) + value_bits(bool_nat(h.truncation), 1) + value_bits(
        bool_nat(h.recursion_desired),
        1,
    ) + value_bits(bool_nat(h.recursion_available), 1) + value_bits(0, 3)
        + value_bits(h.r_code as nat, 4) + value_bits(h.question_count as nat, 16) + value_bits(
        h.answer_record_count as nat,
        16,
    ) + value_bits(h.authoritative_record_count as nat, 16) + value_bits(
        h.additional_record_count as nat,
        16,
    )
}

/// The header that 12 bytes spell.
pub open spec fn header_of(b: Seq<u8>) -> Header {
    Header {
        packet_id: field_value(b, 0, 16) as u16,
        qr_indicator: field_value(b, 16, 1) == 1,
        opcode: field_value(b, 17, 4) as u8,
        aa: field_value(b, 21, 1) == 1,
        truncation: field_value(b, 22, 1) == 1,
        recursion_desired: field_value(b, 23, 1) == 1,
        recursion_available: field_value(b, 24, 1) == 1,
        reserved: field_value(b, 25, 3) as u8,
        r_code: field_value(b, 28, 4) as u8,
        question_count: field_value(b, 32, 16) as u16,
        answer_record_count: field_value(b, 48, 16) as u16,
        authoritative_record_count: field_value(b, 64, 16) as u16,
        additional_record_count: field_value(b, 80, 16) as u16,
    }
}

impl Header {
    /// Decodes the header from the first 12 bytes of `buf`.
    pub fn parse(buf: &[u8]) -> (r: Result<Header, DnsError>)
        ensures
            buf@.len() < 12 ==> r == Err::<Header, DnsError>(DnsError::TruncatedInput),
            buf@.len() >= 12 ==> r == Ok::<Header, DnsError>(header_of(buf@.subrange(0, 12))),
    {
        if buf.len() < HEADER_LEN {
            return Err(DnsError::TruncatedInput);
        }
        let b = slice_subrange(buf, 0, HEADER_LEN);
        Ok(
            Header {
                packet_id: read_field(b, 0, 16) as u16,
                qr_indicator: read_field(b, 16, 1) == 1,
                opcode: read_field(b, 17, 4) as u8,
                aa: read_field(b, 21, 1) == 1,
                truncation: read_field(b, 22, 1) == 1,
                recursion_desired: read_field(b, 23, 1) == 1,
                recursion_available: read_field(b, 24, 1) == 1,
                reserved: read_field(b, 25, 3) as u8,
                r_code: read_field(b, 28, 4) as u8,
                question_count: read_field(b, 32, 16) as u16,
                answer_record_count: read_field(b, 48, 16) as u16,
                authoritative_record_count: read_field(b, 64, 16) as u16,
                additional_record_count: read_field(b, 80, 16) as u16,
            },
        )
    }

    /// Encodes the header into 12 bytes: every field as it stands but the
    /// reserved bits, which are always zero; sub-byte fields keep their low
    /// bits.
    pub fn write(&self) -> (r: Vec<u8>)
        ensures
            r@.len() == 12,
            bits_of(r@) == header_bits(*self),
    {
        let mut w = BitWriter::new();
        put(&mut w, self.packet_id as u64, 16);
        put(&mut w, self.qr_indicator as u64, 1);
        put(&mut w, self.opcode as u64, 4);
        put(&mut w, self.aa as u64, 1);
        put(&mut w, self.truncation as u64, 1);
        put(&mut w, self.recursion_desired as u64, 1);
        put(&mut w, self.recursion_available as u64, 1);
        put(&mut w, 0, 3);
        put(&mut w, self.r_code as u64, 4);
        put(&mut w, self.question_count as u64, 16);
        put(&mut w, self.answer_record_count as u64, 16);
        put(&mut w, self.authoritative_record_count as u64, 16);
        put(&mut w, self.additional_record_count as u64, 16);
        proof {
            lemma_header_bits_len(*self);
            assert(written_bits(w) == header_bits(*self));
        }
        let _ = w.close();
        proof {
            assert(written_bits(w) =~= header_bits(*self));
        }
        slice_to_vec(w.data().as_slice())
    }

    /// The header turned into a response (see `response_spec`).
    pub fn response(&self) -> (r: Header)
        ensures
            r == self.response_spec(),
    {
        Header {
            qr_indicator: true,
            r_code: if self.opcode == 0 {
                0
            } else {
                4
            },
            recursion_available: false,
            reserved: 0,
            ..*self
        }
    }
}

/// Appends the low `n` bits of `v` to the writer.
fn put(w: &mut BitWriter, v: u64, n: u8)
    requires
        n <= 64,
        written_bits(*old(w)).len() <= 1024,
    ensures
        written_bits(*final(w)) == written_bits(*old(w)) + value_bits(v as nat, n as nat),
        written_bits(*final(w)).len() == written_bits(*old(w)).len() + n,
{
    let _ = w.write_u64(v, n);
    proof {
        lemma_value_bits_len(v as nat, n as nat);
    }
}

pub proof fn lemma_header_bits_len(h: Header)
    ensures
        header_bits(h).len() == 96,
{
    lemma_value_bits_len(h.packet_id as nat, 16);
    lemma_value_bits_len(bool_nat(h.qr_indicator), 1);
    lemma_value_bits_len(h.opcode as nat, 4);
    lemma_value_bits_len(bool_nat(h.aa), 1);
    lemma_value_bits_len(bool_nat(h.truncation), 1);
    lemma_value_bits_len(bool_nat(h.recursion_desired), 1);
    lemma_value_bits_len(bool_nat(h.recursion_available), 1);
    lemma_value_bits_len(0, 3);
    lemma_value_bits_len(h.r_code as nat, 4);
    lemma_value_bits_len(h.question_count as nat, 16);
    lemma_value_bits_len(h.answer_record_count as nat, 16);
    lemma_value_bits_len(h.authoritative_record_count as nat, 16);
    lemma_value_bits_len(h.additional_record_count as nat, 16);
}

proof fn lemma_field_round_trip(b: Seq<u8>, pos: int, v: nat, w: nat)
    requires
        0 <= pos,
        pos + w <= bits_of(b).len(),
        v < two_pow(w),
        bits_of(b).subrange(pos, pos + w) == value_bits(v, w),
    ensures
        field_value(b, pos, w as int) == v,
{
    lemma_value_bits_round_trip(v, w);
}

proof fn lemma_field_widths()
    ensures
        two_pow(1) == 2,
        two_pow(3) == 8,
        two_pow(4) == 16,
        two_pow(16) == 0x1_0000,
{
    reveal_with_fuel(two_pow, 17);
}

/// Decoding the 12 bytes that a well-formed header with zero reserved bits
/// encodes to gives the header back.
pub proof fn lemma_header_round_trip(h: Header, b: Seq<u8>)
    requires
        h.wf(),
        h.reserved == 0,
        b.len() == 12,
        bits_of(b) == header_bits(h),
    ensures
        header_of(b) == h,
{
    lemma_field_widths();
    lemma_value_bits_len(h.packet_id as nat, 16);
    lemma_value_bits_len(bool_nat(h.qr_indicator), 1);
    lemma_value_bits_len(h.opcode as nat, 4);
    lemma_value_bits_len(bool_nat(h.aa), 1);
    lemma_value_bits_len(bool_nat(h.truncation), 1);
    lemma_value_bits_len(bool_nat(h.recursion_desired), 1);
    lemma_value_bits_len(bool_nat(h.recursion_available), 1);
    lemma_value_bits_len(h.reserved as nat, 3);
    lemma_value_bits_len(h.r_code as nat, 4);
    lemma_value_bits_len(h.question_count as nat, 16);
    lemma_value_bits_len(h.answer_record_count as nat, 16);
    lemma_value_bits_len(h.authoritative_record_count as nat, 16);
    lemma_value_bits_len(h.additional_record_count as nat, 16);
    let s = bits_of(b);
    let p1 = value_bits(h.packet_id as nat, 16);
    let p2 = p1 + value_bits(bool_nat(h.qr_indicator), 1);
    let p3 = p2 + value_bits(h.opcode as nat, 4);
    let p4 = p3 + value_bits(bool_nat(h.aa), 1);
    let p5 = p4 + value_bits(bool_nat(h.truncation), 1);
    let p6 = p5 + value_bits(bool_nat(h.recursion_desired), 1);
    let p7 = p6 + value_bits(bool_nat(h.recursion_available), 1);
    let p8 = p7 + value_bits(h.reserved as nat, 3);
    let p9 = p8 + value_bits(h.r_code as nat, 4);
    let p10 = p9 + value_bits(h.question_count as nat, 16);
    let p11 = p10 + value_bits(h.answer_record_count as nat, 16);
    let p12 = p11 + value_bits(h.authoritative_record_count as nat, 16);
    let p13 = p12 + value_bits(h.additional_record_count as nat, 16);
    assert(s == p13);
    assert(s.subrange(0, 80) =~= p12);
    assert(s.subrange(0, 64) =~= p11);
    assert(s.subrange(0, 48) =~= p10);
    assert(s.subrange(0, 32) =~= p9);
    assert(s.subrange(0, 28) =~= p8);
    assert(s.subrange(0, 25) =~= p7);
    assert(s.subrange(0, 24) =~= p6);
    assert(s.subrange(0, 23) =~= p5);
    assert(s.subrange(0, 22) =~= p4);
    assert(s.subrange(0, 21) =~= p3);
    assert(s.subrange(0, 17) =~= p2);
    assert(s.subrange(0, 16) =~= p1);
    assert(s.subrange(16, 17) =~= value_bits(bool_nat(h.qr_indicator), 1));
    assert(s.subrange(17, 21) =~= value_bits(h.opcode as nat, 4));
    assert(s.subrange(21, 22) =~= value_bits(bool_nat(h.aa), 1));
    assert(s.subrange(22, 23) =~= value_bits(bool_nat(h.truncation), 1));
    assert(s.subrange(23, 24) =~= value_bits(bool_nat(h.recursion_desired), 1));
    assert(s.subrange(24, 25) =~= value_bits(bool_nat(h.recursion_available), 1));
    assert(s.subrange(25, 28) =~= value_bits(h.reserved as nat, 3));
    assert(s.subrange(28, 32) =~= value_bits(h.r_code as nat, 4));
    assert(s.subrange(32, 48) =~= value_bits(h.question_count as nat, 16));
    assert(s.subrange(48, 64) =~= value_bits(h.answer_record_count as nat, 16));
    assert(s.subrange(64, 80) =~= value_bits(h.authoritative_record_count as nat, 16));
    assert(s.subrange(80, 96) =~= value_bits(h.additional_record_count as nat, 16));
    lemma_field_round_trip(b, 0, h.packet_id as nat, 16);
    lemma_field_round_trip(b, 16, bool_nat(h.qr_indicator), 1);
    lemma_field_round_trip(b, 17, h.opcode as nat, 4);
    lemma_field_round_trip(b, 21, bool_nat(h.aa), 1);
    lemma_field_round_trip(b, 22, bool_nat(h.truncation), 1);
    lemma_field_round_trip(b, 23, bool_nat(h.recursion_desired), 1);
    lemma_field_round_trip(b, 24, bool_nat(h.recursion_available), 1);
    lemma_field_round_trip(b, 25, h.reserved as nat, 3);
    lemma_field_round_trip(b, 28, h.r_code as nat, 4);
    lemma_field_round_trip(b, 32, h.question_count as nat, 16);
    lemma_field_round_trip(b, 48, h.answer_record_count as nat, 16);
    lemma_field_round_trip(b, 64, h.authoritative_record_count as nat, 16);
    lemma_field_round_trip(b, 80, h.additional_record_count as nat, 16);
}

/// An encoded response header reads back as a response, with response code
/// 0 for the standard query opcode and 4 for every other opcode, and never
/// with recursion available.
pub proof fn lemma_response_rules(h: Header, b: Seq<u8>)
    requires
        h.wf(),
        b.len() == 12,
        bits_of(b) == header_bits(h.response_spec()),
    ensures
        header_of(b).qr_indicator,
        h.opcode == 0 ==> header_of(b).r_code == 0,
        h.opcode != 0 ==> header_of(b).r_code == 4,
        !header_of(b).recursion_available,
        header_of(b).recursion_desired == h.recursion_desired,
{
    lemma_header_round_trip(h.response_spec(), b);
}

} // verus!
