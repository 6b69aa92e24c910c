use vstd::prelude::*;

use crate::block::{le32_at, le32_val, push_le32, read_range, spec_le32};
use crate::lex::push_range;

verus! {

/// One entry of a hint file: it asserts that the paired segment holds a
/// record for `key` whose value bytes occupy
/// `[value_pos, value_pos + value_sz)` and whose timestamp is `tstamp`.
pub struct IndexRecord {
    pub key: Vec<u8>,
    pub value_sz: u32,
    pub value_pos: u32,
    pub tstamp: u32,
}

/// The logical content of one hint entry.
pub ghost struct HintRec {
    pub key: Seq<u8>,
    pub value_sz: u32,
    pub value_pos: u32,
    pub tstamp: u32,
}

pub open spec fn hint_wf(h: HintRec) -> bool {
    h.key.len() <= u32::MAX
}

/// Encoded length of a hint entry: key length field, key bytes, and three
/// more u32 fields.
pub open spec fn hint_size(h: HintRec) -> int {
    16 + h.key.len() as int
}

/// On-disk layout of a hint entry:
/// `key_len | key | value_sz | value_pos | tstamp`, integers little-endian.
pub open spec fn spec_encode_hint(h: HintRec) -> Seq<u8> {
    spec_le32(h.key.len() as u32) + h.key + spec_le32(h.value_sz) + spec_le32(h.value_pos)
        + spec_le32(h.tstamp)
}

/// Decodes the hint entry at the front of `s`; `None` when the bytes are
/// too short (a truncated tail ends the scan).
#[verifier::opaque]
pub open spec fn parse_hint_head(s: Seq<u8>) -> Option<(HintRec, int)> {
    if s.len() < 4 {
        None
    } else {
        let klen = le32_val(s.subrange(0, 4)) as int;
        if s.len() < 16 + klen {
            None
        } else {
            let key = s.subrange(4, 4 + klen);
            let value_sz = le32_val(s.subrange(4 + klen, 8 + klen));
            let value_pos = le32_val(s.subrange(8 + klen, 12 + klen));
            let tstamp = le32_val(s.subrange(12 + klen, 16 + klen));
            Some((HintRec { key, value_sz, value_pos, tstamp }, 16 + klen))
        }
    }
}

pub proof fn lemma_parse_hint_head_size(s: Seq<u8>)
    ensures
        parse_hint_head(s) matches Some(p) ==> {
            &&& 16 <= p.1 <= s.len()
            &&& p.1 == hint_size(p.0)
            &&& hint_wf(p.0)
        },
{
    reveal(parse_hint_head);
}

/// Appending bytes after a parseable hint entry does not change its parse.
pub proof fn lemma_parse_hint_within(s: Seq<u8>, t: Seq<u8>)
    ensures
        parse_hint_head(s) matches Some(p) ==> parse_hint_head(s + t) == Some(p),
{
    reveal(parse_hint_head);
    if parse_hint_head(s) is Some {
        let st = s + t;
        assert(st.subrange(0, 4) =~= s.subrange(0, 4));
        let klen = le32_val(s.subrange(0, 4)) as int;
        assert(st.subrange(4, 4 + klen) =~= s.subrange(4, 4 + klen));
        assert(st.subrange(4 + klen, 8 + klen) =~= s.subrange(4 + klen, 8 + klen));
        assert(st.subrange(8 + klen, 12 + klen) =~= s.subrange(8 + klen, 12 + klen));
        assert(st.subrange(12 + klen, 16 + klen) =~= s.subrange(12 + klen, 16 + klen));
    }
}

/// Round trip: an encoded hint entry parses back to itself, whatever
/// bytes follow it.
pub proof fn lemma_parse_encode_hint(h: HintRec, rest: Seq<u8>)
    requires
        hint_wf(h),
    ensures
        parse_hint_head(spec_encode_hint(h) + rest) == Some((h, hint_size(h))),
{
    reveal(parse_hint_head);
    let s = spec_encode_hint(h) + rest;
    let klen = h.key.len() as int;
    assert(s.subrange(0, 4) =~= spec_le32(h.key.len() as u32));
    crate::block::lemma_le32_roundtrip(h.key.len() as u32);
    assert(s.subrange(4, 4 + klen) =~= h.key);
    assert(s.subrange(4 + klen, 8 + klen) =~= spec_le32(h.value_sz));
    assert(s.subrange(8 + klen, 12 + klen) =~= spec_le32(h.value_pos));
    assert(s.subrange(12 + klen, 16 + klen) =~= spec_le32(h.tstamp));
    crate::block::lemma_le32_roundtrip(h.value_sz);
    crate::block::lemma_le32_roundtrip(h.value_pos);
    crate::block::lemma_le32_roundtrip(h.tstamp);
}

impl IndexRecord {
    pub open spec fn rec(self) -> HintRec {
        HintRec {
            key: self.key@,
            value_sz: self.value_sz,
            value_pos: self.value_pos,
            tstamp: self.tstamp,
        }
    }
}

/// Appends the encoding of one hint entry to a hint file's bytes.
pub fn push_hint(dst: &mut Vec<u8>, key: &Vec<u8>, value_sz: u32, value_pos: u32, tstamp: u32)
    requires
        key@.len() <= u32::MAX,
    ensures
        final(dst)@ == old(dst)@ + spec_encode_hint(
            HintRec { key: key@, value_sz, value_pos, tstamp },
        ),
{
    push_le32(dst, key.len() as u32);
    push_range(dst, key, 0, key.len());
    push_le32(dst, value_sz);
    push_le32(dst, value_pos);
    push_le32(dst, tstamp);
    proof {
        assert(key@.subrange(0, key@.len() as int) =~= key@);
        assert(dst@ =~= old(dst)@ + spec_encode_hint(
            HintRec { key: key@, value_sz, value_pos, tstamp },
        ));
    }
}

/// Decodes the hint entry at byte offset `pos` of a hint file; `None`
/// marks the end of the readable prefix.
pub fn decode_hint_at(data: &Vec<u8>, pos: usize) -> (r: Option<(IndexRecord, usize)>)
    requires
        pos <= data@.len(),
    ensures
        match r {
            Some(p) => {
                &&& parse_hint_head(data@.skip(pos as int)) == Some((p.0.rec(), p.1 as int))
                &&& p.0.key@.len() <= u32::MAX
                &&& pos + p.1 <= data@.len()
                &&& p.1 == hint_size(p.0.rec())
            },
            None => parse_hint_head(data@.skip(pos as int)) is None,
        },
{
    proof {
        reveal(parse_hint_head);
    }
    let ghost s = data@.skip(pos as int);
    let remaining = data.len() - pos;
    if remaining < 4 {
        return None;
    }
    let klen = le32_at(data, pos);
    proof {
        assert(data@.subrange(pos as int, pos as int + 4) =~= s.subrange(0, 4));
    }
    if remaining < 16 || (klen as usize) > remaining - 16 {
        proof {
            assert(s.len() == remaining);
        }
        return None;
    }
    let kstart = pos + 4;
    let kend = kstart + klen as usize;
    let key = read_range(data, kstart, kend);
    let value_sz = le32_at(data, kend);
    let value_pos = le32_at(data, kend + 4);
    let tstamp = le32_at(data, kend + 8);
    proof {
        let k = klen as int;
        assert(key@ =~= s.subrange(4, 4 + k));
        assert(data@.subrange(kend as int, kend as int + 4) =~= s.subrange(4 + k, 8 + k));
        assert(data@.subrange(kend as int + 4, kend as int + 8) =~= s.subrange(8 + k, 12 + k));
        assert(data@.subrange(kend as int + 8, kend as int + 12) =~= s.subrange(12 + k, 16 + k));
    }
    let rec = IndexRecord { key, value_sz, value_pos, tstamp };
    proof {
        assert(parse_hint_head(s) == Some((rec.rec(), 16 + klen as int)));
    }
    Some((rec, 16 + klen as usize))
}

} // verus!
