//! The wire format of the scan record: little-endian, length-prefixed
//! binary encoding in the common-data-representation discipline.
//!
//! A message is a four-byte encapsulation header (little-endian identifier)
//! followed by the record's fields in declaration order: fixed-width scalars
//! directly, the frame identifier as a counted, zero-terminated string
//! padded to a four-byte boundary, and each sample sequence as a four-byte
//! element count followed by the elements.  `wire_bytes` is the one
//! byte-exact contract consumers depend on; `parse` is its inverse, and
//! `lemma_wire_round_trip` proves that decoding an encoded record gives the
//! record back field for field.

use vstd::prelude::*;

use crate::scan::{ScanRecord, ScanView, Time};

verus! {

/// Little-endian bytes of a 32-bit word.
pub open spec fn le32(x: u32) -> Seq<u8> {
    seq![
        (x & 0xFF) as u8,
        ((x >> 8) & 0xFF) as u8,
        ((x >> 16) & 0xFF) as u8,
        ((x >> 24) & 0xFF) as u8,
    ]
}

/// The 32-bit word stored little-endian at offset `off`.
pub open spec fn read32(b: Seq<u8>, off: int) -> u32 {
    (b[off] as u32) | ((b[off + 1] as u32) << 8) | ((b[off + 2] as u32) << 16) | ((b[off
        + 3] as u32) << 24)
}

/// `n` zero bytes: the padding before an aligned field.
pub open spec fn zeros(n: int) -> Seq<u8> {
    Seq::new(n as nat, |i: int| 0u8)
}

/// Padding after a counted string whose encoded length (count and
/// terminator included) is `slen`, so that the next four-byte field is
/// aligned.
pub open spec fn str_pad(slen: int) -> int {
    (4 - (slen % 4)) % 4
}

/// The encapsulation header naming the little-endian encoding.
pub open spec fn wire_header() -> Seq<u8> {
    seq![0u8, 1u8, 0u8, 0u8]
}

/// The concatenated little-endian words of a sequence.
pub open spec fn le32_concat(s: Seq<u32>) -> Seq<u8>
    decreases s.len(),
{
    if s.len() == 0 {
        Seq::<u8>::empty()
    } else {
        le32(s[0]) + le32_concat(s.drop_first())
    }
}

proof fn lemma_le32_concat_len(s: Seq<u32>)
    ensures
        le32_concat(s).len() == 4 * s.len(),
    decreases s.len(),
{
    if s.len() > 0 {
        lemma_le32_concat_len(s.drop_first());
    }
}

proof fn lemma_le32_concat_push(s: Seq<u32>, x: u32)
    ensures
        le32_concat(s.push(x)) == le32_concat(s) + le32(x),
    decreases s.len(),
{
    if s.len() == 0 {
        assert(s.push(x) =~= seq![x]);
        assert(s.push(x).drop_first() =~= Seq::<u32>::empty());
        assert(le32_concat(s.push(x).drop_first()) == Seq::<u8>::empty());
        assert(le32_concat(s.push(x)) == le32(x) + Seq::<u8>::empty());
        assert(le32_concat(s) == Seq::<u8>::empty());
        assert(le32_concat(s.push(x)) =~= le32_concat(s) + le32(x));
    } else {
        assert(s.push(x).drop_first() =~= s.drop_first().push(x));
        lemma_le32_concat_push(s.drop_first(), x);
        assert(s.push(x)[0] == s[0]);
        assert(le32_concat(s.push(x)) =~= le32_concat(s) + le32(x));
    }
}

proof fn lemma_le32_concat_at(s: Seq<u32>, i: int)
    requires
        0 <= i < s.len(),
    ensures
        le32_concat(s).subrange(4 * i, 4 * i + 4) == le32(s[i]),
    decreases i,
{
    lemma_le32_concat_len(s);
    if i == 0 {
        assert(le32_concat(s).subrange(0, 4) =~= le32(s[0]));
    } else {
        lemma_le32_concat_at(s.drop_first(), i - 1);
        lemma_le32_concat_len(s.drop_first());
        assert(le32_concat(s).subrange(4 * i, 4 * i + 4) =~= le32_concat(s.drop_first()).subrange(
            4 * (i - 1),
            4 * (i - 1) + 4,
        ));
    }
}

/// A word is recovered from its little-endian bytes.
proof fn lemma_read32_le32(b: Seq<u8>, off: int, x: u32)
    requires
        0 <= off,
        off + 4 <= b.len(),
        b.subrange(off, off + 4) == le32(x),
    ensures
        read32(b, off) == x,
{
    assert(b[off] == le32(x)[0]);
    assert(b[off + 1] == le32(x)[1]);
    assert(b[off + 2] == le32(x)[2]);
    assert(b[off + 3] == le32(x)[3]);
    assert(((x & 0xFF) as u8 as u32) | ((((x >> 8) & 0xFF) as u8 as u32) << 8) | ((((x >> 16)
        & 0xFF) as u8 as u32) << 16) | ((((x >> 24) & 0xFF) as u8 as u32) << 24) == x)
        by (bit_vector);
}

/// The bytes after the encapsulation header.
pub open spec fn data_bytes(v: ScanView) -> Seq<u8> {
    le32(v.sec) + le32(v.nsec) + le32((v.frame_id.len() + 1) as u32) + v.frame_id + seq![0u8]
        + zeros(str_pad(v.frame_id.len() + 1 as int)) + le32(v.angle_min) + le32(v.angle_max) + le32(
        v.angle_increment,
    ) + le32(v.time_increment) + le32(v.scan_time) + le32(v.range_min) + le32(v.range_max) + le32(
        v.ranges.len() as u32,
    ) + le32_concat(v.ranges) + le32(v.intensities.len() as u32) + le32_concat(v.intensities)
}

/// The full message: header, then data.
pub open spec fn wire_bytes(v: ScanView) -> Seq<u8> {
    wire_header() + data_bytes(v)
}

/// Append the little-endian bytes of one word.
fn push_le32(out: &mut Vec<u8>, x: u32)
    ensures
        final(out)@ == old(out)@ + le32(x),
{
    let ghost pre = out@;
    proof {
        assert(x & 0xFF < 256 && (x >> 8) & 0xFF < 256 && (x >> 16) & 0xFF < 256 && (x >> 24)
            & 0xFF < 256) by (bit_vector);
    }
    out.push((x & 0xFF) as u8);
    out.push(((x >> 8) & 0xFF) as u8);
    out.push(((x >> 16) & 0xFF) as u8);
    out.push(((x >> 24) & 0xFF) as u8);
    proof {
        assert(out@ =~= pre + le32(x));
    }
}

/// Encode a record for the bus.
#[verifier::rlimit(100)]
pub fn encode(rec: &ScanRecord) -> (out: Vec<u8>)
    requires
        rec@.wf(),
    ensures
        out@ == wire_bytes(rec@),
{
    let mut out: Vec<u8> = Vec::new();
    out.push(0);
    out.push(1);
    out.push(0);
    out.push(0);
    proof {
        assert(out@ =~= wire_header());
    }
    push_le32(&mut out, rec.stamp.sec);
    push_le32(&mut out, rec.stamp.nsec);
    let slen: u32 = (rec.frame_id.len() as u32) + 1;
    push_le32(&mut out, slen);
    let ghost pre_f = out@;
    let mut i: usize = 0;
    while i < rec.frame_id.len()
        invariant
            i <= rec.frame_id@.len(),
            out@ == pre_f + rec.frame_id@.subrange(0, i as int),
        decreases rec.frame_id@.len() - i,
    {
        out.push(rec.frame_id[i]);
        proof {
            assert(out@ =~= pre_f + rec.frame_id@.subrange(0, i + 1));
        }
        i = i + 1;
    }
    proof {
        assert(rec.frame_id@.subrange(0, rec.frame_id@.len() as int) =~= rec.frame_id@);
    }
    out.push(0);
    let pad: u32 = (4 - (slen % 4)) % 4;
    let ghost pre_p = out@;
    let mut j: u32 = 0;
    while j < pad
        invariant
            j <= pad <= 3,
            out@ == pre_p + zeros(j as int),
        decreases pad - j,
    {
        out.push(0);
        proof {
            assert(out@ =~= pre_p + zeros(j + 1));
        }
        j = j + 1;
    }
    push_le32(&mut out, rec.angle_min);
    push_le32(&mut out, rec.angle_max);
    push_le32(&mut out, rec.angle_increment);
    push_le32(&mut out, rec.time_increment);
    push_le32(&mut out, rec.scan_time);
    push_le32(&mut out, rec.range_min);
    push_le32(&mut out, rec.range_max);
    push_le32(&mut out, rec.ranges.len() as u32);
    let ghost pre_r = out@;
    let mut a: usize = 0;
    while a < rec.ranges.len()
        invariant
            a <= rec.ranges@.len(),
            out@ == pre_r + le32_concat(rec.ranges@.subrange(0, a as int)),
        decreases rec.ranges@.len() - a,
    {
        push_le32(&mut out, rec.ranges[a]);
        proof {
            assert(rec.ranges@.subrange(0, a + 1) =~= rec.ranges@.subrange(0, a as int).push(
                rec.ranges@[a as int],
            ));
            lemma_le32_concat_push(rec.ranges@.subrange(0, a as int), rec.ranges@[a as int]);
        }
        a = a + 1;
    }
    proof {
        assert(rec.ranges@.subrange(0, rec.ranges@.len() as int) =~= rec.ranges@);
    }
    push_le32(&mut out, rec.intensities.len() as u32);
    let ghost pre_i = out@;
    let mut c: usize = 0;
    while c < rec.intensities.len()
        invariant
            c <= rec.intensities@.len(),
            out@ == pre_i + le32_concat(rec.intensities@.subrange(0, c as int)),
        decreases rec.intensities@.len() - c,
    {
        push_le32(&mut out, rec.intensities[c]);
        proof {
            assert(rec.intensities@.subrange(0, c + 1) =~= rec.intensities@.subrange(
                0,
                c as int,
            ).push(rec.intensities@[c as int]));
            lemma_le32_concat_push(
                rec.intensities@.subrange(0, c as int),
                rec.intensities@[c as int],
            );
        }
        c = c + 1;
    }
    proof {
        assert(rec.intensities@.subrange(0, rec.intensities@.len() as int) =~= rec.intensities@);
        assert(out@ =~= wire_bytes(rec@));
    }
    out
}

/// Parse a message: `None` on anything that `wire_bytes` cannot produce.
pub open spec fn parse(b: Seq<u8>) -> Option<ScanView> {
    if b.len() < 4 {
        None
    } else if b.subrange(0, 4) != wire_header() {
        None
    } else {
        parse_data(b.skip(4))
    }
}

/// Parse the bytes after the header.
pub open spec fn parse_data(d: Seq<u8>) -> Option<ScanView> {
    if d.len() < 12 {
        None
    } else {
        let slen = read32(d, 8) as int;
        if slen == 0 || d.len() < 12 + slen {
            None
        } else if d[12 + slen - 1] != 0 {
            None
        } else {
            let pad = str_pad(slen);
            if d.len() < 12 + slen + pad {
                None
            } else if d.subrange(12 + slen, 12 + slen + pad) != zeros(pad) {
                None
            } else {
                let off0 = 12 + slen + pad;
                if d.len() < off0 + 32 {
                    None
                } else {
                    let rlen = read32(d, off0 + 28) as int;
                    if d.len() < off0 + 32 + 4 * rlen + 4 {
                        None
                    } else {
                        let off2 = off0 + 32 + 4 * rlen;
                        let ilen = read32(d, off2) as int;
                        if d.len() != off2 + 4 + 4 * ilen {
                            None
                        } else {
                            Some(
                                ScanView {
                                    sec: read32(d, 0),
                                    nsec: read32(d, 4),
                                    frame_id: d.subrange(12, 12 + slen - 1),
                                    angle_min: read32(d, off0),
                                    angle_max: read32(d, off0 + 4),
                                    angle_increment: read32(d, off0 + 8),
                                    time_increment: read32(d, off0 + 12),
                                    scan_time: read32(d, off0 + 16),
                                    range_min: read32(d, off0 + 20),
                                    range_max: read32(d, off0 + 24),
                                    ranges: Seq::new(
                                        rlen as nat,
                                        |i: int| read32(d, off0 + 32 + 4 * i),
                                    ),
                                    intensities: Seq::new(
                                        ilen as nat,
                                        |i: int| read32(d, off2 + 4 + 4 * i),
                                    ),
                                },
                            )
                        }
                    }
                }
            }
        }
    }
}

/// Layout and header facts: lengths, the stamp words, and the counted
/// string with its padding.
#[verifier::rlimit(100)]
proof fn lemma_rt_head(v: ScanView)
    requires
        v.wf(),
    ensures
        ({
            let d = data_bytes(v);
            let slen = v.frame_id.len() + 1;
            let pad = str_pad(slen as int);
            &&& d.len() == 12 + slen + pad + 32 + 4 * v.ranges.len() + 4 + 4 * v.intensities.len()
            &&& read32(d, 0) == v.sec
            &&& read32(d, 4) == v.nsec
            &&& read32(d, 8) == slen as u32
            &&& d.subrange(12, 12 + slen - 1) == v.frame_id
            &&& d[12 + slen - 1] == 0
            &&& d.subrange(12 + slen as int, 12 + slen + pad) == zeros(pad)
        }),
{
    let d = data_bytes(v);
    let slen = v.frame_id.len() + 1;
    let pad = str_pad(slen as int);
    lemma_le32_concat_len(v.ranges);
    lemma_le32_concat_len(v.intensities);
    assert(d.subrange(0, 4) =~= le32(v.sec));
    lemma_read32_le32(d, 0, v.sec);
    assert(d.subrange(4, 8) =~= le32(v.nsec));
    lemma_read32_le32(d, 4, v.nsec);
    assert(d.subrange(8, 12) =~= le32(slen as u32));
    lemma_read32_le32(d, 8, slen as u32);
    assert(d.subrange(12, 12 + slen - 1) =~= v.frame_id);
    assert(d[12 + slen - 1] == 0);
    assert(d.subrange(12 + slen as int, 12 + slen + pad) =~= zeros(pad));
}

/// The seven geometry and timing words, and the range count, read back.
#[verifier::rlimit(100)]
proof fn lemma_rt_geom(v: ScanView)
    requires
        v.wf(),
    ensures
        ({
            let d = data_bytes(v);
            let off0 = 12 + (v.frame_id.len() + 1) + str_pad((v.frame_id.len() + 1) as int);
            &&& read32(d, off0 as int) == v.angle_min
            &&& read32(d, off0 + 4) == v.angle_max
            &&& read32(d, off0 + 8) == v.angle_increment
            &&& read32(d, off0 + 12) == v.time_increment
            &&& read32(d, off0 + 16) == v.scan_time
            &&& read32(d, off0 + 20) == v.range_min
            &&& read32(d, off0 + 24) == v.range_max
            &&& read32(d, off0 + 28) == v.ranges.len() as u32
        }),
{
    let d = data_bytes(v);
    let off0 = 12 + (v.frame_id.len() + 1) + str_pad((v.frame_id.len() + 1) as int);
    lemma_le32_concat_len(v.ranges);
    lemma_le32_concat_len(v.intensities);
    assert(d.subrange(off0 as int, off0 + 4) =~= le32(v.angle_min));
    lemma_read32_le32(d, off0 as int, v.angle_min);
    assert(d.subrange(off0 + 4, off0 + 8) =~= le32(v.angle_max));
    lemma_read32_le32(d, off0 + 4, v.angle_max);
    assert(d.subrange(off0 + 8, off0 + 12) =~= le32(v.angle_increment));
    lemma_read32_le32(d, off0 + 8, v.angle_increment);
    assert(d.subrange(off0 + 12, off0 + 16) =~= le32(v.time_increment));
    lemma_read32_le32(d, off0 + 12, v.time_increment);
    assert(d.subrange(off0 + 16, off0 + 20) =~= le32(v.scan_time));
    lemma_read32_le32(d, off0 + 16, v.scan_time);
    assert(d.subrange(off0 + 20, off0 + 24) =~= le32(v.range_min));
    lemma_read32_le32(d, off0 + 20, v.range_min);
    assert(d.subrange(off0 + 24, off0 + 28) =~= le32(v.range_max));
    lemma_read32_le32(d, off0 + 24, v.range_max);
    assert(d.subrange(off0 + 28, off0 + 32) =~= le32(v.ranges.len() as u32));
    lemma_read32_le32(d, off0 + 28, v.ranges.len() as u32);
}

/// The range samples read back.
#[verifier::rlimit(100)]
proof fn lemma_rt_ranges(v: ScanView)
    requires
        v.wf(),
    ensures
        ({
            let d = data_bytes(v);
            let off0 = 12 + (v.frame_id.len() + 1) + str_pad((v.frame_id.len() + 1) as int);
            Seq::new(v.ranges.len(), |i: int| read32(d, off0 + 32 + 4 * i)) == v.ranges
        }),
{
    let d = data_bytes(v);
    let off0 = 12 + (v.frame_id.len() + 1) + str_pad((v.frame_id.len() + 1) as int);
    let rl = v.ranges.len();
    lemma_le32_concat_len(v.ranges);
    lemma_le32_concat_len(v.intensities);
    assert forall|i: int| 0 <= i < rl implies read32(d, off0 + 32 + 4 * i) == v.ranges[i] by {
        lemma_le32_concat_at(v.ranges, i);
        assert(d.subrange(off0 + 32 + 4 * i, off0 + 32 + 4 * i + 4) =~= le32_concat(
            v.ranges,
        ).subrange(4 * i, 4 * i + 4));
        lemma_read32_le32(d, off0 + 32 + 4 * i, v.ranges[i]);
    }
    assert(Seq::new(rl, |i: int| read32(d, off0 + 32 + 4 * i)) =~= v.ranges);
}

/// The intensity count and samples read back.
#[verifier::rlimit(100)]
proof fn lemma_rt_intensities(v: ScanView)
    requires
        v.wf(),
    ensures
        ({
            let d = data_bytes(v);
            let off2 = 12 + (v.frame_id.len() + 1) + str_pad((v.frame_id.len() + 1) as int) + 32
                + 4 * v.ranges.len();
            &&& read32(d, off2 as int) == v.intensities.len() as u32
            &&& Seq::new(v.intensities.len(), |i: int| read32(d, off2 + 4 + 4 * i))
                == v.intensities
        }),
{
    let d = data_bytes(v);
    let off2 = 12 + (v.frame_id.len() + 1) + str_pad((v.frame_id.len() + 1) as int) + 32 + 4
        * v.ranges.len();
    let il = v.intensities.len();
    lemma_le32_concat_len(v.ranges);
    lemma_le32_concat_len(v.intensities);
    assert(d.subrange(off2 as int, off2 + 4) =~= le32(il as u32));
    lemma_read32_le32(d, off2 as int, il as u32);
    assert forall|i: int| 0 <= i < il implies read32(d, off2 + 4 + 4 * i) == v.intensities[i] by {
        lemma_le32_concat_at(v.intensities, i);
        assert(d.subrange(off2 + 4 + 4 * i, off2 + 4 + 4 * i + 4) =~= le32_concat(
            v.intensities,
        ).subrange(4 * i, 4 * i + 4));
        lemma_read32_le32(d, off2 + 4 + 4 * i, v.intensities[i]);
    }
    assert(Seq::new(il, |i: int| read32(d, off2 + 4 + 4 * i)) =~= v.intensities);
}

/// From the read-back facts alone, the parser yields exactly `v`.
#[verifier::rlimit(100)]
#[verifier::spinoff_prover]
proof fn lemma_parse_assemble(v: ScanView, d: Seq<u8>)
    requires
        v.wf(),
        ({
            let slen = v.frame_id.len() + 1;
            let pad = str_pad(slen as int);
            let off0 = 12 + slen + pad;
            let off2 = off0 + 32 + 4 * v.ranges.len();
            &&& d.len() == off2 + 4 + 4 * v.intensities.len()
            &&& read32(d, 0) == v.sec
            &&& read32(d, 4) == v.nsec
            &&& read32(d, 8) == slen as u32
            &&& d.subrange(12, 12 + slen - 1) == v.frame_id
            &&& d[12 + slen - 1] == 0
            &&& d.subrange(12 + slen as int, 12 + slen + pad) == zeros(pad)
            &&& read32(d, off0 as int) == v.angle_min
            &&& read32(d, off0 + 4) == v.angle_max
            &&& read32(d, off0 + 8) == v.angle_increment
            &&& read32(d, off0 + 12) == v.time_increment
            &&& read32(d, off0 + 16) == v.scan_time
            &&& read32(d, off0 + 20) == v.range_min
            &&& read32(d, off0 + 24) == v.range_max
            &&& read32(d, off0 + 28) == v.ranges.len() as u32
            &&& Seq::new(v.ranges.len(), |i: int| read32(d, off0 + 32 + 4 * i)) == v.ranges
            &&& read32(d, off2 as int) == v.intensities.len() as u32
            &&& Seq::new(v.intensities.len(), |i: int| read32(d, off2 + 4 + 4 * i))
                == v.intensities
        }),
    ensures
        parse_data(d) == Some(v),
{
    let slen = v.frame_id.len() + 1;
    let pad = str_pad(slen as int);
    let off0 = 12 + slen + pad;
    let off2 = off0 + 32 + 4 * v.ranges.len();
    assert(read32(d, 8) as int == slen as int);
    assert(read32(d, off0 + 28) as int == v.ranges.len() as int);
    assert(read32(d, off2 as int) as int == v.intensities.len() as int);
    assert(parse_data(d) is Some);
    let w = parse_data(d)->Some_0;
    assert(w.frame_id =~= v.frame_id);
    assert(w.ranges =~= v.ranges);
    assert(w.intensities =~= v.intensities);
    assert(w =~= v);
}

/// The message splits back into its header and its data bytes.
#[verifier::rlimit(100)]
#[verifier::spinoff_prover]
proof fn lemma_wire_shape(v: ScanView)
    ensures
        wire_bytes(v).len() >= 4,
        wire_bytes(v).subrange(0, 4) == wire_header(),
        wire_bytes(v).skip(4) == data_bytes(v),
{
    assert(wire_bytes(v).subrange(0, 4) =~= wire_header());
    assert(wire_bytes(v).skip(4) =~= data_bytes(v));
}

/// Decoding an encoded record reproduces it field for field.
#[verifier::rlimit(100)]
#[verifier::spinoff_prover]
pub proof fn lemma_wire_round_trip(v: ScanView)
    requires
        v.wf(),
    ensures
        parse(wire_bytes(v)) == Some(v),
{
    let b = wire_bytes(v);
    let d = data_bytes(v);
    lemma_rt_head(v);
    lemma_rt_geom(v);
    lemma_rt_ranges(v);
    lemma_rt_intensities(v);
    lemma_parse_assemble(v, d);
    lemma_wire_shape(v);
    assert(parse(b) == Some(v));
}

/// Read the word at `off`.
fn get32(bytes: &Vec<u8>, off: usize) -> (x: u32)
    requires
        off + 4 <= bytes@.len(),
    ensures
        x == read32(bytes@, off as int),
{
    let n = bytes.len();
    assert(off + 4 <= n);
    (bytes[off] as u32) | ((bytes[off + 1] as u32) << 8) | ((bytes[off + 2] as u32) << 16) | ((
    bytes[off + 3] as u32) << 24)
}

/// Decode a message; `None` exactly on the byte strings that `parse`
/// rejects.
#[verifier::rlimit(100)]
#[verifier::loop_isolation(false)]
pub fn decode(bytes: &Vec<u8>) -> (r: Option<ScanRecord>)
    ensures
        r matches Some(rec) ==> parse(bytes@) == Some(rec@),
        r is None ==> parse(bytes@) is None,
{
    let n: usize = bytes.len();
    if n < 16 {
        return None;
    }
    if bytes[0] != 0 || bytes[1] != 1 || bytes[2] != 0 || bytes[3] != 0 {
        proof {
            assert(bytes@.subrange(0, 4)[0] == bytes@[0]);
            assert(bytes@.subrange(0, 4)[1] == bytes@[1]);
            assert(bytes@.subrange(0, 4)[2] == bytes@[2]);
            assert(bytes@.subrange(0, 4)[3] == bytes@[3]);
        }
        return None;
    }
    proof {
        assert(bytes@.subrange(0, 4) =~= wire_header());
    }
    let ghost d = bytes@.skip(4);
    proof {
        assert(d.len() == n - 4);
        assert forall|k: int| 0 <= k < d.len() implies d[k] == bytes@[k + 4] by {}
    }
    let sec = get32(bytes, 4);
    let nsec = get32(bytes, 8);
    let slen32 = get32(bytes, 12);
    proof {
        assert(read32(d, 0) == read32(bytes@, 4));
        assert(read32(d, 4) == read32(bytes@, 8));
        assert(read32(d, 8) == read32(bytes@, 12));
    }
    if slen32 == 0 {
        return None;
    }
    let slen: usize = slen32 as usize;
    if n - 4 < 12 || n - 4 - 12 < slen {
        return None;
    }
    // the terminating byte of the counted string
    if bytes[16 + slen - 1] != 0 {
        proof {
            assert(d[12 + slen - 1] == bytes@[16 + slen - 1]);
        }
        return None;
    }
    let pad: usize = (4 - (slen % 4)) % 4;
    proof {
        assert(pad == str_pad(slen as int));
    }
    if n - 16 - slen < pad {
        return None;
    }
    let mut p: usize = 0;
    while p < pad
        invariant
            p <= pad,
            pad == str_pad(slen as int),
            16 + slen + pad <= n == bytes@.len(),
            d == bytes@.skip(4),
            forall|k: int| 12 + slen <= k < 12 + slen + p ==> d[k] == 0,
        decreases pad - p,
    {
        if bytes[16 + slen + p] != 0 {
            proof {
                assert(d[12 + slen + p] == bytes@[16 + slen + p]);
                assert(d.subrange(12 + slen as int, 12 + slen + pad)[p as int] != zeros(
                    pad as int,
                )[p as int]);
            }
            return None;
        }
        proof {
            assert(d[12 + slen + p] == bytes@[16 + slen + p]);
        }
        p = p + 1;
    }
    proof {
        assert(d.subrange(12 + slen as int, 12 + slen + pad) =~= zeros(pad as int));
    }
    let off0: usize = 16 + slen + pad;
    if n - off0 < 32 {
        return None;
    }
    let angle_min = get32(bytes, off0);
    let angle_max = get32(bytes, off0 + 4);
    let angle_increment = get32(bytes, off0 + 8);
    let time_increment = get32(bytes, off0 + 12);
    let scan_time = get32(bytes, off0 + 16);
    let range_min = get32(bytes, off0 + 20);
    let range_max = get32(bytes, off0 + 24);
    let rlen32 = get32(bytes, off0 + 28);
    proof {
        assert(read32(d, off0 - 4) == read32(bytes@, off0 as int));
        assert(read32(d, off0 + 4 - 4) == read32(bytes@, off0 + 4));
        assert(read32(d, off0 + 8 - 4) == read32(bytes@, off0 + 8));
        assert(read32(d, off0 + 12 - 4) == read32(bytes@, off0 + 12));
        assert(read32(d, off0 + 16 - 4) == read32(bytes@, off0 + 16));
        assert(read32(d, off0 + 20 - 4) == read32(bytes@, off0 + 20));
        assert(read32(d, off0 + 24 - 4) == read32(bytes@, off0 + 24));
        assert(read32(d, off0 + 28 - 4) == read32(bytes@, off0 + 28));
    }
    let rlen: usize = rlen32 as usize;
    if (n - off0 - 32) / 4 < rlen || n - off0 - 32 - 4 * rlen < 4 {
        return None;
    }
    let off2: usize = off0 + 32 + 4 * rlen;
    let ilen32 = get32(bytes, off2);
    proof {
        assert(read32(d, off2 - 4) == read32(bytes@, off2 as int));
    }
    let ilen: usize = ilen32 as usize;
    if (n - off2 - 4) / 4 != ilen || n - off2 - 4 - 4 * ilen != 0 {
        return None;
    }
    // copy the frame identifier
    let mut frame_id: Vec<u8> = Vec::new();
    let mut fi: usize = 0;
    while fi < slen - 1
        invariant
            fi <= slen - 1,
            16 + slen <= n == bytes@.len(),
            d == bytes@.skip(4),
            frame_id@.len() == fi,
            forall|k: int| 0 <= k < fi ==> frame_id@[k] == d[12 + k],
        decreases slen - 1 - fi,
    {
        let bb = bytes[16 + fi];
        proof {
            assert(d[12 + fi] == bytes@[16 + fi]);
        }
        frame_id.push(bb);
        fi = fi + 1;
    }
    proof {
        assert(frame_id@ =~= d.subrange(12, 12 + slen - 1));
    }
    // copy the samples
    let mut ranges: Vec<u32> = Vec::new();
    let mut ri: usize = 0;
    while ri < rlen
        invariant
            ri <= rlen,
            off0 + 32 + 4 * rlen + 4 <= n == bytes@.len(),
            off0 >= 16,
            d == bytes@.skip(4),
            ranges@.len() == ri,
            forall|k: int| 0 <= k < ri ==> ranges@[k] == read32(d, off0 - 4 + 32 + 4 * k),
        decreases rlen - ri,
    {
        let x = get32(bytes, off0 + 32 + 4 * ri);
        proof {
            assert(read32(d, off0 - 4 + 32 + 4 * ri) == read32(bytes@, off0 + 32 + 4 * ri));
        }
        ranges.push(x);
        ri = ri + 1;
    }
    let mut intensities: Vec<u32> = Vec::new();
    let mut ii: usize = 0;
    while ii < ilen
        invariant
            ii <= ilen,
            off2 + 4 + 4 * ilen <= n == bytes@.len(),
            off2 >= 48,
            d == bytes@.skip(4),
            intensities@.len() == ii,
            forall|k: int| 0 <= k < ii ==> intensities@[k] == read32(d, off2 - 4 + 4 + 4 * k),
        decreases ilen - ii,
    {
        let x = get32(bytes, off2 + 4 + 4 * ii);
        proof {
            assert(read32(d, off2 - 4 + 4 + 4 * ii) == read32(bytes@, off2 + 4 + 4 * ii));
        }
        intensities.push(x);
        ii = ii + 1;
    }
    let rec = ScanRecord {
        stamp: Time { sec, nsec },
        frame_id,
        angle_min,
        angle_max,
        angle_increment,
        time_increment,
        scan_time,
        range_min,
        range_max,
        ranges,
        intensities,
    };
    proof {
        let dd0 = 12 + (slen as int) + str_pad(slen as int);
        assert(ranges@ =~= Seq::new(rlen as nat, |i: int| read32(d, dd0 + 32 + 4 * i)));
        assert(intensities@ =~= Seq::new(
            ilen as nat,
            |i: int| read32(d, dd0 + 32 + 4 * (rlen as int) + 4 + 4 * i),
        ));
        assert(parse_data(d) matches Some(w) && w =~= rec@);
        assert(parse(bytes@) == Some(rec@));
    }
    Some(rec)
}

} // verus!
