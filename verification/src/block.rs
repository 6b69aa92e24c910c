use vstd::prelude::*;

use crate::lex::{key_cmp, push_range};

verus! {

/// Header length of an on-disk record: four little-endian u32 fields
/// (crc, tstamp, ksz, value_sz).
pub const HEADER_SIZE: usize = 16;

/// The CRC-32 (IEEE polynomial) of a byte sequence, as computed by the
/// checksum library; a function of the bytes alone.
pub uninterp spec fn crc32_of(data: Seq<u8>) -> u32;

/// Relies on crc32fast::hash: returns the CRC-32 (IEEE) checksum of the
/// buffer, a deterministic function of the buffer's bytes.
#[verifier::external_body]
pub fn crc32(data: &Vec<u8>) -> (r: u32)
    ensures
        r == crc32_of(data@),
{
    crc32fast::hash(data.as_slice())
}

/// The fixed sentinel value that marks a delete record.
pub open spec fn tombstone_seq() -> Seq<u8> {
    seq![
        37u8, 95u8, 37u8, 95u8, 37u8, 95u8, 37u8, 60u8, 33u8, 40u8, 82u8, 124u8, 69u8, 124u8,
        77u8, 124u8, 79u8, 124u8, 86u8, 124u8, 69u8, 124u8, 68u8, 41u8, 33u8, 62u8, 37u8, 95u8,
        37u8, 95u8, 37u8, 95u8, 37u8, 95u8,
    ]
}

/// The delete sentinel, `%_%_%_%<!(R|E|M|O|V|E|D)!>%_%_%_%_`, as bytes.
pub fn remove_tombstone() -> (r: Vec<u8>)
    ensures
        r@ == tombstone_seq(),
{
    let mut v: Vec<u8> = Vec::new();
    v.push(37);
    v.push(95);
    v.push(37);
    v.push(95);
    v.push(37);
    v.push(95);
    v.push(37);
    v.push(60);
    v.push(33);
    v.push(40);
    v.push(82);
    v.push(124);
    v.push(69);
    v.push(124);
    v.push(77);
    v.push(124);
    v.push(79);
    v.push(124);
    v.push(86);
    v.push(124);
    v.push(69);
    v.push(124);
    v.push(68);
    v.push(41);
    v.push(33);
    v.push(62);
    v.push(37);
    v.push(95);
    v.push(37);
    v.push(95);
    v.push(37);
    v.push(95);
    v.push(37);
    v.push(95);
    proof {
        assert(v@ =~= tombstone_seq());
    }
    v
}

/// The four little-endian bytes of a u32.
pub open spec fn spec_le32(x: u32) -> Seq<u8> {
    seq![
        (x % 256) as u8,
        ((x / 256) % 256) as u8,
        ((x / 65536) % 256) as u8,
        ((x / 16777216) % 256) as u8,
    ]
}

/// The u32 read from four little-endian bytes.
pub open spec fn le32_val(s: Seq<u8>) -> u32 {
    ((s[0] as int) + (s[1] as int) * 256 + (s[2] as int) * 65536 + (s[3] as int)
        * 16777216) as u32
}

pub proof fn lemma_le32_roundtrip(x: u32)
    ensures
        le32_val(spec_le32(x)) == x,
{
    assert((x % 256) as int + ((x / 256) % 256) as int * 256 + ((x / 65536) % 256) as int * 65536
        + ((x / 16777216) % 256) as int * 16777216 == x as int) by (bit_vector);
}

/// Appends the four little-endian bytes of `x` to `dst`.
pub fn push_le32(dst: &mut Vec<u8>, x: u32)
    ensures
        final(dst)@ == old(dst)@ + spec_le32(x),
{
    dst.push((x % 256) as u8);
    dst.push(((x / 256) % 256) as u8);
    dst.push(((x / 65536) % 256) as u8);
    dst.push(((x / 16777216) % 256) as u8);
    proof {
        assert(dst@ =~= old(dst)@ + spec_le32(x));
    }
}

/// Reads the u32 stored in little-endian order at `data[pos..pos+4]`.
pub fn le32_at(data: &Vec<u8>, pos: usize) -> (r: u32)
    requires
        pos + 4 <= data@.len(),
    ensures
        r == le32_val(data@.subrange(pos as int, pos as int + 4)),
{
    let n = data.len();
    assert(pos + 4 <= n);
    let b0 = data[pos] as u32;
    let b1 = data[pos + 1] as u32;
    let b2 = data[pos + 2] as u32;
    let b3 = data[pos + 3] as u32;
    proof {
        let s = data@.subrange(pos as int, pos as int + 4);
        assert(s[0] == data@[pos as int]);
        assert(s[1] == data@[pos as int + 1]);
        assert(s[2] == data@[pos as int + 2]);
        assert(s[3] == data@[pos as int + 3]);
        assert(b0 + b1 * 256 + b2 * 65536 + b3 * 16777216 <= 0xffffffffu32);
    }
    b0 + b1 * 256 + b2 * 65536 + b3 * 16777216
}

/// The logical content of one on-disk record.
pub ghost struct RecSpec {
    pub tstamp: u32,
    pub key: Seq<u8>,
    pub value: Seq<u8>,
}

pub open spec fn rec_wf(r: RecSpec) -> bool {
    &&& r.key.len() <= u32::MAX
    &&& r.value.len() <= u32::MAX
    &&& 16 + r.key.len() + r.value.len() <= u32::MAX
}

/// Total encoded length of a record: header plus key plus value.
pub open spec fn rec_size(r: RecSpec) -> int {
    16 + r.key.len() as int + r.value.len() as int
}

/// The bytes the record's checksum covers: tstamp, ksz, value_sz, key, value.
pub open spec fn payload_of(r: RecSpec) -> Seq<u8> {
    spec_le32(r.tstamp) + spec_le32(r.key.len() as u32) + spec_le32(r.value.len() as u32) + r.key
        + r.value
}

/// The full on-disk encoding of a record: crc, then the payload it covers.
pub open spec fn spec_encode(r: RecSpec) -> Seq<u8> {
    spec_le32(crc32_of(payload_of(r))) + payload_of(r)
}

/// Decodes the record starting at the front of `s`: `None` when the bytes
/// are too short for the declared lengths or the stored crc does not match
/// the payload (a truncated or corrupt tail ends a scan).
#[verifier::opaque]
pub open spec fn parse_head(s: Seq<u8>) -> Option<(RecSpec, int)> {
    if s.len() < 16 {
        None
    } else {
        let crc = le32_val(s.subrange(0, 4));
        let tstamp = le32_val(s.subrange(4, 8));
        let ksz = le32_val(s.subrange(8, 12)) as int;
        let vsz = le32_val(s.subrange(12, 16)) as int;
        if s.len() < 16 + ksz + vsz {
            None
        } else {
            let key = s.subrange(16, 16 + ksz);
            let value = s.subrange(16 + ksz, 16 + ksz + vsz);
            if crc == crc32_of(
                spec_le32(tstamp) + spec_le32(ksz as u32) + spec_le32(vsz as u32) + key + value,
            ) {
                Some((RecSpec { tstamp, key, value }, 16 + ksz + vsz))
            } else {
                None
            }
        }
    }
}

pub proof fn lemma_parse_head_size(s: Seq<u8>)
    ensures
        parse_head(s) matches Some(p) ==> {
            &&& 16 <= p.1 <= s.len()
            &&& p.1 == rec_size(p.0)
            &&& p.0.key.len() <= u32::MAX
            &&& p.0.value.len() <= u32::MAX
            &&& (s.len() <= u32::MAX ==> rec_wf(p.0))
            &&& p.0.key == s.subrange(16, 16 + p.0.key.len() as int)
            &&& p.0.value == s.subrange(
                16 + p.0.key.len() as int,
                16 + p.0.key.len() as int + p.0.value.len() as int,
            )
        },
{
    reveal(parse_head);
}

/// Parsing looks only at the bytes of the record itself, so appending more
/// bytes after a parseable record does not change what is parsed.
pub proof fn lemma_parse_within(s: Seq<u8>, t: Seq<u8>)
    ensures
        parse_head(s) matches Some(p) ==> parse_head(s + t) == Some(p),
{
    reveal(parse_head);
    if parse_head(s) is Some {
        let st = s + t;
        assert(st.subrange(0, 4) =~= s.subrange(0, 4));
        assert(st.subrange(4, 8) =~= s.subrange(4, 8));
        assert(st.subrange(8, 12) =~= s.subrange(8, 12));
        assert(st.subrange(12, 16) =~= s.subrange(12, 16));
        let ksz = le32_val(s.subrange(8, 12)) as int;
        let vsz = le32_val(s.subrange(12, 16)) as int;
        assert(st.subrange(16, 16 + ksz) =~= s.subrange(16, 16 + ksz));
        assert(st.subrange(16 + ksz, 16 + ksz + vsz) =~= s.subrange(16 + ksz, 16 + ksz + vsz));
    }
}

/// Round trip: the encoding of a well-formed record parses back to the
/// record itself, whatever bytes follow it.
#[verifier::spinoff_prover]
#[verifier::rlimit(100)]
pub proof fn lemma_parse_encode(r: RecSpec, rest: Seq<u8>)
    requires
        rec_wf(r),
    ensures
        parse_head(spec_encode(r) + rest) == Some((r, rec_size(r))),
{
    reveal(parse_head);
    let c = crc32_of(payload_of(r));
    let s = spec_encode(r) + rest;
    let k = r.key.len() as int;
    let v = r.value.len() as int;
    assert(s.subrange(0, 4) =~= spec_le32(c));
    assert(s.subrange(4, 8) =~= spec_le32(r.tstamp));
    assert(s.subrange(8, 12) =~= spec_le32(r.key.len() as u32));
    assert(s.subrange(12, 16) =~= spec_le32(r.value.len() as u32));
    lemma_le32_roundtrip(c);
    lemma_le32_roundtrip(r.tstamp);
    lemma_le32_roundtrip(r.key.len() as u32);
    lemma_le32_roundtrip(r.value.len() as u32);
    assert(s.subrange(16, 16 + k) =~= r.key);
    assert(s.subrange(16 + k, 16 + k + v) =~= r.value);
    assert(spec_le32(r.tstamp) + spec_le32(r.key.len() as u32) + spec_le32(r.value.len() as u32)
        + s.subrange(16, 16 + k) + s.subrange(16 + k, 16 + k + v) =~= payload_of(r));
}

/// The bytes form a whole number of parseable records with nothing left over.
pub open spec fn chain_clean(s: Seq<u8>) -> bool
    decreases s.len(),
{
    if s.len() == 0 {
        true
    } else {
        match parse_head(s) {
            Some(p) => {
                if 0 < p.1 <= s.len() {
                    chain_clean(s.skip(p.1))
                } else {
                    false
                }
            },
            None => false,
        }
    }
}

/// A clean record chain stays clean when one more encoded record is appended.
pub proof fn lemma_chain_clean_append(s: Seq<u8>, r: RecSpec)
    requires
        chain_clean(s),
        rec_wf(r),
    ensures
        chain_clean(s + spec_encode(r)),
    decreases s.len(),
{
    let e = spec_encode(r);
    if s.len() == 0 {
        assert(s + e =~= e + Seq::<u8>::empty());
        lemma_parse_encode(r, Seq::<u8>::empty());
        assert(parse_head(s + e) == Some((r, rec_size(r))));
        assert(e.len() == rec_size(r));
        assert((s + e).skip(rec_size(r)).len() == 0);
        assert(chain_clean((s + e).skip(rec_size(r))));
        assert(chain_clean(s + e));
    } else {
        let p = parse_head(s)->Some_0;
        lemma_parse_within(s, e);
        assert(parse_head(s + e) == Some(p));
        lemma_parse_head_size(s);
        assert((s + e).skip(p.1) =~= s.skip(p.1) + e);
        lemma_chain_clean_append(s.skip(p.1), r);
        assert(chain_clean((s + e).skip(p.1)));
        assert(chain_clean(s + e));
    }
}

/// One on-disk record: header fields, key bytes and value bytes.
pub struct Block {
    pub crc: u32,
    pub tstamp: u32,
    pub ksz: u32,
    pub value_sz: u32,
    pub key: Vec<u8>,
    pub value: Vec<u8>,
}

impl Block {
    /// The logical record this block carries.
    pub open spec fn rec(self) -> RecSpec {
        RecSpec { tstamp: self.tstamp, key: self.key@, value: self.value@ }
    }

    /// The length fields match the byte vectors and the crc covers the payload.
    pub open spec fn wf(self) -> bool {
        &&& self.ksz == self.key@.len()
        &&& self.value_sz == self.value@.len()
        &&& rec_wf(self.rec())
        &&& self.crc == crc32_of(payload_of(self.rec()))
    }

    /// Builds a record over the key and value, filling in the checksum.
    pub fn new(tstamp: u32, key: Vec<u8>, value: Vec<u8>) -> (r: Block)
        requires
            16 + key@.len() + value@.len() <= u32::MAX,
        ensures
            r.wf(),
            r.tstamp == tstamp,
            r.key@ == key@,
            r.value@ == value@,
            r.rec() == (RecSpec { tstamp, key: key@, value: value@ }),
    {
        let ksz = key.len() as u32;
        let value_sz = value.len() as u32;
        let mut block = Block { crc: 0, tstamp, ksz, value_sz, key, value };
        block.crc = block_crc(&block);
        block
    }

    /// Whether this record is a tombstone: its value equals the sentinel.
    pub fn is_removed(&self) -> (r: bool)
        ensures
            r == (self.value@ == tombstone_seq()),
    {
        let t = remove_tombstone();
        key_cmp(&self.value, &t) == 0
    }

    /// Total encoded length: header plus key plus value.
    pub fn size(&self) -> (n: usize)
        requires
            16 + self.key@.len() + self.value@.len() <= usize::MAX,
        ensures
            n == rec_size(self.rec()),
    {
        16 + self.key.len() + self.value.len()
    }

    /// The on-disk bytes of this record.
    pub fn serialize(&self) -> (out: Vec<u8>)
        requires
            self.wf(),
        ensures
            out@ == spec_encode(self.rec()),
    {
        let mut out: Vec<u8> = Vec::new();
        push_le32(&mut out, self.crc);
        push_le32(&mut out, self.tstamp);
        push_le32(&mut out, self.ksz);
        push_le32(&mut out, self.value_sz);
        push_range(&mut out, &self.key, 0, self.key.len());
        push_range(&mut out, &self.value, 0, self.value.len());
        proof {
            assert(self.key@.subrange(0, self.key@.len() as int) =~= self.key@);
            assert(self.value@.subrange(0, self.value@.len() as int) =~= self.value@);
            assert(out@ =~= spec_encode(self.rec()));
        }
        out
    }
}

/// The checksum stored in a record: the CRC-32 of tstamp, ksz, value_sz,
/// key and value, in that order, each integer little-endian.
pub fn block_crc(block: &Block) -> (r: u32)
    ensures
        r == crc32_of(
            spec_le32(block.tstamp) + spec_le32(block.ksz) + spec_le32(block.value_sz) + block.key@
                + block.value@,
        ),
{
    let mut payload: Vec<u8> = Vec::new();
    push_le32(&mut payload, block.tstamp);
    push_le32(&mut payload, block.ksz);
    push_le32(&mut payload, block.value_sz);
    push_range(&mut payload, &block.key, 0, block.key.len());
    push_range(&mut payload, &block.value, 0, block.value.len());
    proof {
        assert(block.key@.subrange(0, block.key@.len() as int) =~= block.key@);
        assert(block.value@.subrange(0, block.value@.len() as int) =~= block.value@);
        assert(payload@ =~= spec_le32(block.tstamp) + spec_le32(block.ksz) + spec_le32(
            block.value_sz,
        ) + block.key@ + block.value@);
    }
    crc32(&payload)
}

/// Copies the bytes `data[start..end]` into a fresh vector.
pub fn read_range(data: &Vec<u8>, start: usize, end: usize) -> (r: Vec<u8>)
    requires
        start <= end <= data@.len(),
    ensures
        r@ == data@.subrange(start as int, end as int),
{
    let mut r: Vec<u8> = Vec::new();
    push_range(&mut r, data, start, end);
    proof {
        assert(r@ =~= data@.subrange(start as int, end as int));
    }
    r
}

/// Decodes the record at byte offset `pos` of a segment, verifying its
/// checksum; `None` marks the end of the readable prefix.
pub fn decode_at(data: &Vec<u8>, pos: usize) -> (r: Option<(Block, usize)>)
    requires
        pos <= data@.len(),
        data@.len() <= u32::MAX,
    ensures
        match r {
            Some(p) => {
                &&& parse_head(data@.skip(pos as int)) == Some((p.0.rec(), p.1 as int))
                &&& p.0.wf()
                &&& pos + p.1 <= data@.len()
                &&& p.1 == rec_size(p.0.rec())
            },
            None => parse_head(data@.skip(pos as int)) is None,
        },
{
    proof {
        reveal(parse_head);
    }
    let ghost s = data@.skip(pos as int);
    let remaining = data.len() - pos;
    if remaining < 16 {
        return None;
    }
    let crc = le32_at(data, pos);
    let tstamp = le32_at(data, pos + 4);
    let ksz = le32_at(data, pos + 8);
    let vsz = le32_at(data, pos + 12);
    proof {
        assert(data@.subrange(pos as int, pos as int + 4) =~= s.subrange(0, 4));
        assert(data@.subrange(pos as int + 4, pos as int + 8) =~= s.subrange(4, 8));
        assert(data@.subrange(pos as int + 8, pos as int + 12) =~= s.subrange(8, 12));
        assert(data@.subrange(pos as int + 12, pos as int + 16) =~= s.subrange(12, 16));
    }
    if (ksz as usize) > remaining - 16 {
        return None;
    }
    if (vsz as usize) > remaining - 16 - (ksz as usize) {
        return None;
    }
    let kstart = pos + 16;
    let kend = kstart + ksz as usize;
    let vend = kend + vsz as usize;
    let key = read_range(data, kstart, kend);
    let value = read_range(data, kend, vend);
    proof {
        assert(key@ =~= s.subrange(16, 16 + ksz as int));
        assert(value@ =~= s.subrange(16 + ksz as int, 16 + ksz as int + vsz as int));
    }
    let block = Block { crc, tstamp, ksz, value_sz: vsz, key, value };
    let expected = block_crc(&block);
    if crc != expected {
        proof {
            assert(spec_le32(tstamp) + spec_le32(ksz) + spec_le32(vsz) + key@ + value@
                =~= payload_of(block.rec()));
        }
        return None;
    }
    proof {
        assert(spec_le32(tstamp) + spec_le32(ksz) + spec_le32(vsz) + key@ + value@ =~= payload_of(
            block.rec(),
        ));
        assert(parse_head(s) == Some((block.rec(), 16 + ksz as int + vsz as int)));
    }
    Some((block, 16 + ksz as usize + vsz as usize))
}

} // verus!
