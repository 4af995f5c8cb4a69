//! Domain names: length-prefixed labels ended by a zero byte, with
//! compression pointers on decode.
use vstd::prelude::*;
use vstd::slice::{slice_subrange, slice_to_vec};
use crate::DnsError;

verus! {

/// The longest label that the wire format can carry.
pub const MAX_LABEL_LEN: usize = 63;

/// The labels of a name as byte strings.
pub open spec fn labels_view(v: Seq<Vec<u8>>) -> Seq<Seq<u8>> {
    v.map_values(|l: Vec<u8>| l@)
}

/// A continuation byte of UTF-8.
pub open spec fn is_cont(c: u8) -> bool {
    0x80 <= c <= 0xbf
}

/// The bytes of `b` from `i` on are well-formed UTF-8: each character is
/// one of the byte sequences that the Unicode standard allows (no overlong
/// forms, no surrogates, nothing above U+10FFFF).
pub open spec fn utf8_from(b: Seq<u8>, i: int) -> bool
    decreases b.len() - i,
{
    if i < 0 || i >= b.len() {
        true
    } else {
        let c = b[i];
        if c < 0x80 {
            utf8_from(b, i + 1)
        } else if 0xc2 <= c <= 0xdf {
            i + 1 < b.len() && is_cont(b[i + 1]) && utf8_from(b, i + 2)
        } else if 0xe0 <= c <= 0xef {
            i + 2 < b.len() && (if c == 0xe0 {
                0xa0 <= b[i + 1] <= 0xbf
            } else if c == 0xed {
                0x80 <= b[i + 1] <= 0x9f
            } else {
                is_cont(b[i + 1])
            }) && is_cont(b[i + 2]) && utf8_from(b, i + 3)
        } else if 0xf0 <= c <= 0xf4 {
            i + 3 < b.len() && (if c == 0xf0 {
                0x90 <= b[i + 1] <= 0xbf
            } else if c == 0xf4 {
                0x80 <= b[i + 1] <= 0x8f
            } else {
                is_cont(b[i + 1])
            }) && is_cont(b[i + 2]) && is_cont(b[i + 3]) && utf8_from(b, i + 4)
        } else {
            false
        }
    }
}

/// The bytes are well-formed UTF-8.
pub open spec fn utf8_valid(b: Seq<u8>) -> bool {
    utf8_from(b, 0)
}

/// Relies on `std::str::from_utf8`: it accepts exactly the well-formed
/// UTF-8 byte strings.
#[verifier::external_body]
fn is_utf8(b: &[u8]) -> (r: bool)
    ensures
        r == utf8_valid(b@),
{
    std::str::from_utf8(b).is_ok()
}

/// The name that starts at `pos` of `buf`, and the offset just after it in
/// the run of bytes that holds `pos`. A compression pointer must point below
/// `seg`, the offset at which the current run of labels started, so that
/// every chain of pointers moves strictly backwards.
pub open spec fn name_at(buf: Seq<u8>, pos: int, seg: int) -> Result<(Seq<Seq<u8>>, int), DnsError>
    decreases seg, buf.len() - pos,
{
    if pos < 0 || pos >= buf.len() {
        Err(DnsError::TruncatedInput)
    } else {
        let b = buf[pos];
        if b == 0 {
            Ok((Seq::empty(), pos + 1))
        } else if b < 64 {
            let next = pos + 1 + b;
            if next > buf.len() {
                Err(DnsError::TruncatedInput)
            } else if !utf8_valid(buf.subrange(pos + 1, next)) {
                Err(DnsError::InvalidUtf8Label)
            } else {
                match name_at(buf, next, seg) {
                    Ok((rest, end)) => Ok((seq![buf.subrange(pos + 1, next)] + rest, end)),
                    Err(e) => Err(e),
                }
            }
        } else if b >= 192 {
            if pos + 1 >= buf.len() {
                Err(DnsError::TruncatedInput)
            } else {
                let target = (b - 192) * 256 + buf[pos + 1];
                if target >= seg {
                    Err(DnsError::MalformedPointer)
                } else {
                    match name_at(buf, target, target) {
                        Ok((labels, _)) => Ok((labels, pos + 2)),
                        Err(e) => Err(e),
                    }
                }
            }
        } else {
            Err(DnsError::UnsupportedLabelFormat)
        }
    }
}

/// The name that starts at `pos`, where every pointer must lead before `pos`.
pub open spec fn name_from(buf: Seq<u8>, pos: int) -> Result<(Seq<Seq<u8>>, int), DnsError> {
    name_at(buf, pos, pos)
}

/// Each label, with its length byte in front.
pub open spec fn labels_bytes(names: Seq<Seq<u8>>) -> Seq<u8>
    decreases names.len(),
{
    if names.len() == 0 {
        Seq::empty()
    } else {
        labels_bytes(names.drop_last()) + seq![names.last().len() as u8] + names.last()
    }
}

/// The uncompressed encoding of a name: its labels, then a zero byte.
pub open spec fn encode_name(names: Seq<Seq<u8>>) -> Seq<u8> {
    labels_bytes(names) + seq![0u8]
}

/// Every label fits the 63-byte limit.
pub open spec fn labels_fit(names: Seq<Seq<u8>>) -> bool {
    forall|i: int| 0 <= i < names.len() ==> #[trigger] names[i].len() <= 63
}

/// Every label is UTF-8 text of 1 to 63 bytes: the names that decode to themselves.
pub open spec fn labels_valid(names: Seq<Seq<u8>>) -> bool {
    forall|i: int|
        0 <= i < names.len() ==> 1 <= #[trigger] names[i].len() <= 63 && utf8_valid(names[i])
}

fn parse_label(buf: &[u8], pos: usize, seg: usize) -> (r: Result<(Vec<Vec<u8>>, usize), DnsError>)
    ensures
        match r {
            Ok((v, end)) => name_at(buf@, pos as int, seg as int) == Ok::<
                (Seq<Seq<u8>>, int),
                DnsError,
            >((labels_view(v@), end as int)),
            Err(e) => name_at(buf@, pos as int, seg as int) == Err::<
                (Seq<Seq<u8>>, int),
                DnsError,
            >(e),
        },
    decreases seg, buf@.len() - pos,
{
    if pos >= buf.len() {
        return Err(DnsError::TruncatedInput);
    }
    let b = buf[pos];
    if b == 0 {
        proof {
            assert(labels_view(Seq::<Vec<u8>>::empty()) =~= Seq::<Seq<u8>>::empty());
        }
        Ok((Vec::new(), pos + 1))
    } else if b < 64 {
        if b as usize > buf.len() - pos - 1 {
            return Err(DnsError::TruncatedInput);
        }
        let next = pos + 1 + b as usize;
        let text = slice_subrange(buf, pos + 1, next);
        if !is_utf8(text) {
            return Err(DnsError::InvalidUtf8Label);
        }
        match parse_label(buf, next, seg) {
            Ok((mut rest, end)) => {
                let label = slice_to_vec(text);
                let ghost old_rest = rest@;
                rest.insert(0, label);
                proof {
                    assert(labels_view(rest@) =~= seq![label@] + labels_view(old_rest));
                }
                Ok((rest, end))
            },
            Err(e) => Err(e),
        }
    } else if b >= 192 {
        if pos + 1 >= buf.len() {
            return Err(DnsError::TruncatedInput);
        }
        let target = (b as usize - 192) * 256 + buf[pos + 1] as usize;
        if target >= seg {
            return Err(DnsError::MalformedPointer);
        }
        match parse_label(buf, target, target) {
            Ok((labels, _)) => Ok((labels, pos + 2)),
            Err(e) => Err(e),
        }
    } else {
        Err(DnsError::UnsupportedLabelFormat)
    }
}

/// Decodes the name at `pos`, following compression pointers, and returns
/// its labels with the offset just after the name where it started.
pub fn parse_labels(buf: &[u8], pos: usize) -> (r: Result<(Vec<Vec<u8>>, usize), DnsError>)
    ensures
        match r {
            Ok((v, end)) => name_from(buf@, pos as int) == Ok::<(Seq<Seq<u8>>, int), DnsError>(
                (labels_view(v@), end as int),
            ),
            Err(e) => name_from(buf@, pos as int) == Err::<(Seq<Seq<u8>>, int), DnsError>(e),
        },
{
    parse_label(buf, pos, pos)
}

/// Encodes a name without compression, or fails with `LabelTooLong` when a
/// label is longer than 63 bytes.
pub fn write_labels(names: &Vec<Vec<u8>>) -> (r: Result<Vec<u8>, DnsError>)
    ensures
        r.is_ok() == labels_fit(labels_view(names@)),
        match r {
            Ok(v) => v@ == encode_name(labels_view(names@)),
            Err(e) => e == DnsError::LabelTooLong,
        },
{
    let ghost lv = labels_view(names@);
    let mut out: Vec<u8> = Vec::new();
    let mut i: usize = 0;
    while i < names.len()
        invariant
            0 <= i <= names@.len(),
            lv == labels_view(names@),
            out@ == labels_bytes(lv.subrange(0, i as int)),
            labels_fit(lv.subrange(0, i as int)),
        decreases names@.len() - i,
    {
        let label = &names[i];
        if label.len() > MAX_LABEL_LEN {
            proof {
                assert(lv[i as int].len() > 63);
            }
            return Err(DnsError::LabelTooLong);
        }
        let ghost before = out@;
        out.push(label.len() as u8);
        let mut j: usize = 0;
        while j < label.len()
            invariant
                0 <= j <= label@.len(),
                out@ == before + seq![label@.len() as u8] + label@.subrange(0, j as int),
            decreases label@.len() - j,
        {
            out.push(label[j]);
            j += 1;
            proof {
                assert(label@.subrange(0, j as int) =~= label@.subrange(0, j - 1) + seq![label@[j - 1]]);
            }
        }
        proof {
            assert(label@.subrange(0, j as int) =~= label@);
            assert(lv.subrange(0, i + 1).drop_last() =~= lv.subrange(0, i as int));
            assert(lv[i as int] == label@);
        }
        i += 1;
    }
    proof {
        assert(lv.subrange(0, i as int) =~= lv);
    }
    out.push(0);
    Ok(out)
}

/// The encoding of a name read from its first label on.
pub proof fn lemma_labels_bytes_front(names: Seq<Seq<u8>>)
    requires
        names.len() > 0,
    ensures
        labels_bytes(names) == seq![names[0].len() as u8] + names[0] + labels_bytes(
            names.drop_first(),
        ),
    decreases names.len(),
{
    if names.len() == 1 {
        assert(names.drop_last() =~= Seq::<Seq<u8>>::empty());
        assert(names.drop_first() =~= Seq::<Seq<u8>>::empty());
        assert(labels_bytes(names.drop_last()) == Seq::<u8>::empty());
        assert(labels_bytes(names.drop_first()) == Seq::<u8>::empty());
        assert(names.last() == names[0]);
        assert(labels_bytes(names) =~= seq![names[0].len() as u8] + names[0]);
    } else {
        lemma_labels_bytes_front(names.drop_last());
        assert(names.drop_first().drop_last() =~= names.drop_last().drop_first());
        assert(labels_bytes(names) =~= seq![names[0].len() as u8] + names[0] + labels_bytes(
            names.drop_first(),
        ));
    }
}

/// Wherever the uncompressed encoding of a name with non-empty labels of at
/// most 63 bytes stands in a buffer, decoding there gives the name back and
/// ends just after the encoding.
pub proof fn lemma_name_round_trip(buf: Seq<u8>, pos: int, seg: int, names: Seq<Seq<u8>>)
    requires
        labels_valid(names),
        0 <= pos,
        pos + encode_name(names).len() <= buf.len(),
        buf.subrange(pos, pos + encode_name(names).len()) == encode_name(names),
    ensures
        name_at(buf, pos, seg) == Ok::<(Seq<Seq<u8>>, int), DnsError>(
            (names, pos + encode_name(names).len()),
        ),
    decreases names.len(),
{
    let enc = encode_name(names);
    if names.len() == 0 {
        assert(enc[0] == 0);
        assert(buf[pos] == buf.subrange(pos, pos + enc.len())[0]);
        assert(names =~= Seq::<Seq<u8>>::empty());
    } else {
        let rest = names.drop_first();
        let n0 = names[0];
        let l = n0.len();
        lemma_labels_bytes_front(names);
        assert(1 <= names[0].len() <= 63 && utf8_valid(names[0]));
        assert(enc =~= seq![l as u8] + n0 + encode_name(rest));
        let next = pos + 1 + l;
        assert(buf[pos] == buf.subrange(pos, pos + enc.len())[0]);
        assert(buf[pos] == l);
        assert(buf.subrange(pos + 1, next) =~= n0) by {
            assert forall|k: int| 0 <= k < l implies buf.subrange(pos + 1, next)[k] == n0[k] by {
                assert(buf.subrange(pos + 1, next)[k] == buf.subrange(pos, pos + enc.len())[1
                    + k]);
            }
        }
        let er = encode_name(rest);
        assert(buf.subrange(next, next + er.len()) =~= er) by {
            assert forall|k: int| 0 <= k < er.len() implies buf.subrange(next, next + er.len())[k]
                == er[k] by {
                assert(buf.subrange(next, next + er.len())[k] == buf.subrange(
                    pos,
                    pos + enc.len(),
                )[1 + l + k]);
            }
        }
        assert(labels_valid(rest)) by {
            assert forall|i: int| 0 <= i < rest.len() implies 1 <= #[trigger] rest[i].len() <= 63
                && utf8_valid(rest[i]) by {
                assert(rest[i] == names[i + 1]);
            }
        }
        lemma_name_round_trip(buf, next, seg, rest);
        assert(seq![n0] + rest =~= names);
    }
}

/// Every name that decodes has UTF-8 labels of 1 to 63 bytes.
pub proof fn lemma_decoded_labels_valid(buf: Seq<u8>, pos: int, seg: int)
    requires
        name_at(buf, pos, seg) is Ok,
    ensures
        labels_valid(name_at(buf, pos, seg)->Ok_0.0),
        0 <= pos < name_at(buf, pos, seg)->Ok_0.1 <= buf.len() + 1,
    decreases seg, buf.len() - pos,
{
    let b = buf[pos];
    if b != 0 && b < 64 {
        let next = pos + 1 + b;
        lemma_decoded_labels_valid(buf, next, seg);
        let rest = name_at(buf, next, seg)->Ok_0.0;
        let names = name_at(buf, pos, seg)->Ok_0.0;
        assert(names == seq![buf.subrange(pos + 1, next)] + rest);
        assert forall|i: int| 0 <= i < names.len() implies 1 <= #[trigger] names[i].len() <= 63
            && utf8_valid(names[i]) by {
            if i > 0 {
                assert(names[i] == rest[i - 1]);
            }
        }
    } else if b >= 192 {
        let target = (b - 192) * 256 + buf[pos + 1];
        lemma_decoded_labels_valid(buf, target, target);
    } else {
        assert(name_at(buf, pos, seg)->Ok_0.0 =~= Seq::<Seq<u8>>::empty());
    }
}

/// Bytes appended after a buffer do not change a name that decodes in it.
pub proof fn lemma_name_extend(buf: Seq<u8>, extra: Seq<u8>, pos: int, seg: int)
    requires
        name_at(buf, pos, seg) is Ok,
    ensures
        name_at(buf + extra, pos, seg) == name_at(buf, pos, seg),
    decreases seg, buf.len() - pos,
{
    let big = buf + extra;
    let b = buf[pos];
    assert(big[pos] == b);
    if b != 0 && b < 64 {
        let next = pos + 1 + b;
        assert(big.subrange(pos + 1, next) =~= buf.subrange(pos + 1, next));
        lemma_name_extend(buf, extra, next, seg);
    } else if b >= 192 {
        assert(big[pos + 1] == buf[pos + 1]);
        let target = (b - 192) * 256 + buf[pos + 1];
        if target < seg {
            lemma_name_extend(buf, extra, target, target);
        }
    }
}

/// Two compression pointers that lead to each other are rejected, not
/// followed forever.
pub proof fn lemma_pointer_cycle(buf: Seq<u8>, x: int, y: int)
    requires
        0 <= x < 16384,
        0 <= y < 16384,
        x + 1 < buf.len(),
        y + 1 < buf.len(),
        buf[x] == 192 + y / 256,
        buf[x + 1] == y % 256,
        buf[y] == 192 + x / 256,
        buf[y + 1] == x % 256,
    ensures
        name_from(buf, x) == Err::<(Seq<Seq<u8>>, int), DnsError>(DnsError::MalformedPointer),
{
    assert((buf[x] - 192) * 256 + buf[x + 1] == y);
    assert((buf[y] - 192) * 256 + buf[y + 1] == x);
    if y < x {
        assert(name_at(buf, y, y) == Err::<(Seq<Seq<u8>>, int), DnsError>(
            DnsError::MalformedPointer,
        ));
    }
}

/// A name made of one literal label and a pointer back to a name spelled out
/// earlier decodes to that label followed by all of the earlier name's
/// labels, and ends just after the pointer.
pub proof fn lemma_compressed_name(
    buf: Seq<u8>,
    start: int,
    earlier: Seq<Seq<u8>>,
    q: int,
    label: Seq<u8>,
)
    requires
        labels_valid(earlier),
        0 <= start < 16384,
        start + encode_name(earlier).len() <= q,
        buf.subrange(start, start + encode_name(earlier).len()) == encode_name(earlier),
        1 <= label.len() <= 63,
        utf8_valid(label),
        q + label.len() + 3 <= buf.len(),
        buf[q] == label.len(),
        buf.subrange(q + 1, q + 1 + label.len()) == label,
        buf[q + 1 + label.len()] == 192 + start / 256,
        buf[q + 2 + label.len()] == start % 256,
    ensures
        name_from(buf, q) == Ok::<(Seq<Seq<u8>>, int), DnsError>(
            (seq![label] + earlier, q + label.len() + 3),
        ),
{
    lemma_name_round_trip(buf, start, start, earlier);
    let p = q + 1 + label.len();
    assert((buf[p] - 192) * 256 + buf[p + 1] == start);
    assert(name_at(buf, p, q) == Ok::<(Seq<Seq<u8>>, int), DnsError>((earlier, p + 2)));
}

} // verus!
