use vstd::prelude::*;

use crate::block::{chain_clean, parse_head, rec_size, rec_wf, spec_encode, tombstone_seq, RecSpec};
use crate::hint::{hint_wf, parse_hint_head, spec_encode_hint, HintRec};
use crate::keydir::KeyDirEntry;

verus! {

/// In-memory image of one segment file: its numeric id, its bytes, and
/// the bytes of its paired hint file when one exists.
#[derive(Clone)]
pub struct Segment {
    pub id: u32,
    pub data: Vec<u8>,
    pub hint: Option<Vec<u8>>,
}

/// In-memory image of the base directory: its segment files in id order.
#[derive(Clone)]
pub struct Dir {
    pub files: Vec<Segment>,
}

impl Dir {
    pub fn new() -> (d: Dir)
        ensures
            d.files@.len() == 0,
    {
        Dir { files: Vec::new() }
    }

    pub fn file_count(&self) -> (n: usize)
        ensures
            n == self.files@.len(),
    {
        self.files.len()
    }
}

/// Segment ids are strictly increasing, as a sorted directory listing
/// of zero-padded names yields them.
pub open spec fn ids_sorted(files: Seq<Segment>) -> bool {
    forall|i: int, j: int| 0 <= i < j < files.len() ==> files[i].id < files[j].id
}

/// Every segment fits in the u32 offsets the record format uses.
pub open spec fn sizes_ok(files: Seq<Segment>) -> bool {
    forall|i: int| 0 <= i < files.len() ==> #[trigger] files[i].data@.len() <= u32::MAX
}

pub open spec fn has_id(files: Seq<Segment>, id: u32) -> bool {
    exists|i: int| 0 <= i < files.len() && files[i].id == id
}

pub open spec fn idx_of_id(files: Seq<Segment>, id: u32) -> int {
    choose|i: int| 0 <= i < files.len() && files[i].id == id
}

/// The bytes of the segment with the given id.
pub open spec fn seg_data(files: Seq<Segment>, id: u32) -> Seq<u8> {
    files[idx_of_id(files, id)].data@
}

pub proof fn lemma_ids_unique(files: Seq<Segment>)
    requires
        ids_sorted(files),
    ensures
        forall|i: int, j: int|
            0 <= i < files.len() && 0 <= j < files.len() && files[i].id == files[j].id ==> i == j,
{
    assert forall|i: int, j: int|
        0 <= i < files.len() && 0 <= j < files.len() && files[i].id == files[j].id implies i
        == j by {
        if i < j {
            assert(files[i].id < files[j].id);
        } else if j < i {
            assert(files[j].id < files[i].id);
        }
    }
}

/// A keydir entry points into an existing segment, within its bytes.
pub open spec fn entry_ok(files: Seq<Segment>, e: KeyDirEntry) -> bool {
    &&& has_id(files, e.file_id)
    &&& e.value_pos + e.value_sz <= seg_data(files, e.file_id).len()
}

/// The value bytes a keydir entry points at.
pub open spec fn read_entry(files: Seq<Segment>, e: KeyDirEntry) -> Seq<u8> {
    seg_data(files, e.file_id).subrange(e.value_pos as int, e.value_pos + e.value_sz)
}

pub open spec fn entries_ok(files: Seq<Segment>, kd: Map<Seq<u8>, KeyDirEntry>) -> bool {
    forall|k: Seq<u8>| kd.contains_key(k) ==> entry_ok(files, #[trigger] kd[k])
}

/// How one scanned record changes the keydir under recovery: a tombstone
/// removes its key; any other record takes effect unless a strictly newer
/// entry is already present (on equal timestamps the later record wins).
pub open spec fn apply_record(
    kd: Map<Seq<u8>, KeyDirEntry>,
    fid: u32,
    off: int,
    r: RecSpec,
) -> Map<Seq<u8>, KeyDirEntry> {
    if r.value == tombstone_seq() {
        kd.remove(r.key)
    } else if !kd.contains_key(r.key) || kd[r.key].tstamp <= r.tstamp {
        kd.insert(
            r.key,
            KeyDirEntry {
                file_id: fid,
                value_sz: r.value.len() as u32,
                value_pos: (off + 16 + r.key.len()) as u32,
                tstamp: r.tstamp,
            },
        )
    } else {
        kd
    }
}

/// Folds `apply_record` over the records parseable from `s`, which sits at
/// byte offset `off` of segment `fid`; stops at the first unparseable tail.
pub open spec fn apply_chain(
    kd: Map<Seq<u8>, KeyDirEntry>,
    fid: u32,
    off: int,
    s: Seq<u8>,
) -> Map<Seq<u8>, KeyDirEntry>
    decreases s.len(),
{
    match parse_head(s) {
        Some(p) => {
            if 0 < p.1 <= s.len() {
                apply_chain(apply_record(kd, fid, off, p.0), fid, off + p.1, s.skip(p.1))
            } else {
                kd
            }
        },
        None => kd,
    }
}

pub open spec fn hint_entry(fid: u32, h: HintRec) -> KeyDirEntry {
    KeyDirEntry { file_id: fid, value_sz: h.value_sz, value_pos: h.value_pos, tstamp: h.tstamp }
}

/// Folds the entries of a hint file into the keydir: each entry overwrites
/// whatever the keydir holds for its key. An entry whose span does not fit
/// inside the paired segment's bytes marks a corrupt tail and ends the scan.
pub open spec fn hint_chain(
    kd: Map<Seq<u8>, KeyDirEntry>,
    fid: u32,
    data_len: int,
    s: Seq<u8>,
) -> Map<Seq<u8>, KeyDirEntry>
    decreases s.len(),
{
    match parse_hint_head(s) {
        Some(p) => {
            if 0 < p.1 <= s.len() {
                if p.0.value_pos + p.0.value_sz <= data_len {
                    hint_chain(kd.insert(p.0.key, hint_entry(fid, p.0)), fid, data_len, s.skip(p.1))
                } else {
                    kd
                }
            } else {
                kd
            }
        },
        None => kd,
    }
}

/// Recovering one segment: a present hint file is authoritative and is
/// read instead of the segment's records.
pub open spec fn apply_seg(kd: Map<Seq<u8>, KeyDirEntry>, seg: Segment) -> Map<
    Seq<u8>,
    KeyDirEntry,
> {
    match seg.hint {
        Some(h) => hint_chain(kd, seg.id, seg.data@.len() as int, h@),
        None => apply_chain(kd, seg.id, 0, seg.data@),
    }
}

pub open spec fn recover_upto(files: Seq<Segment>, n: int) -> Map<Seq<u8>, KeyDirEntry>
    decreases n,
{
    if n <= 0 {
        Map::empty()
    } else {
        apply_seg(recover_upto(files, n - 1), files[n - 1])
    }
}

/// The keydir that recovery builds from a directory: segments applied in
/// id order, later segments dominating earlier ones.
pub open spec fn recover(files: Seq<Segment>) -> Map<Seq<u8>, KeyDirEntry> {
    recover_upto(files, files.len() as int)
}

/// Recovery of a prefix only looks at that prefix.
pub proof fn lemma_recover_upto_frame(f1: Seq<Segment>, f2: Seq<Segment>, n: int)
    requires
        0 <= n <= f1.len(),
        n <= f2.len(),
        forall|i: int| 0 <= i < n ==> f1[i] == f2[i],
    ensures
        recover_upto(f1, n) == recover_upto(f2, n),
    decreases n,
{
    if n > 0 {
        lemma_recover_upto_frame(f1, f2, n - 1);
    }
}

/// Entries produced by scanning a segment point into that segment's bytes.
pub proof fn lemma_chain_entries_ok(
    kd: Map<Seq<u8>, KeyDirEntry>,
    files: Seq<Segment>,
    fid: u32,
    off: int,
    s: Seq<u8>,
)
    requires
        entries_ok(files, kd),
        has_id(files, fid),
        seg_data(files, fid).len() <= u32::MAX,
        0 <= off <= seg_data(files, fid).len(),
        s == seg_data(files, fid).skip(off),
    ensures
        entries_ok(files, apply_chain(kd, fid, off, s)),
    decreases s.len(),
{
    match parse_head(s) {
        Some(p) => {
            if 0 < p.1 <= s.len() {
                crate::block::lemma_parse_head_size(s);
                let kd2 = apply_record(kd, fid, off, p.0);
                let klen = p.0.key.len() as int;
                let vlen = p.0.value.len() as int;
                assert(p.1 == 16 + klen + vlen);
                assert(s.len() == seg_data(files, fid).len() - off);
                assert(off + p.1 <= seg_data(files, fid).len());
                assert(entries_ok(files, kd2)) by {
                    if p.0.value == tombstone_seq() {
                    } else if !kd.contains_key(p.0.key) || kd[p.0.key].tstamp <= p.0.tstamp {
                        let ne = KeyDirEntry {
                            file_id: fid,
                            value_sz: p.0.value.len() as u32,
                            value_pos: (off + 16 + p.0.key.len()) as u32,
                            tstamp: p.0.tstamp,
                        };
                        assert(0 <= off + 16 + klen <= u32::MAX);
                        assert(ne.value_pos == off + 16 + klen);
                        assert(ne.value_pos + ne.value_sz == off + p.1);
                        assert(entry_ok(files, ne));
                        assert(kd2 == kd.insert(p.0.key, ne));
                    }
                }
                assert(s.skip(p.1) =~= seg_data(files, fid).skip(off + p.1));
                lemma_chain_entries_ok(kd2, files, fid, off + p.1, s.skip(p.1));
            }
        },
        None => {},
    }
}

/// Entries taken from a hint file point into the paired segment's bytes.
pub proof fn lemma_hint_entries_ok(
    kd: Map<Seq<u8>, KeyDirEntry>,
    files: Seq<Segment>,
    fid: u32,
    data_len: int,
    s: Seq<u8>,
)
    requires
        entries_ok(files, kd),
        has_id(files, fid),
        data_len == seg_data(files, fid).len(),
        data_len <= u32::MAX,
    ensures
        entries_ok(files, hint_chain(kd, fid, data_len, s)),
    decreases s.len(),
{
    match parse_hint_head(s) {
        Some(p) => {
            if 0 < p.1 <= s.len() {
                if p.0.value_pos + p.0.value_sz <= data_len {
                    let kd2 = kd.insert(p.0.key, hint_entry(fid, p.0));
                    assert(entries_ok(files, kd2));
                    lemma_hint_entries_ok(kd2, files, fid, data_len, s.skip(p.1));
                }
            }
        },
        None => {},
    }
}

/// Every entry that recovery puts in the keydir points at real bytes in a
/// real segment of the directory it recovered from.
pub proof fn lemma_recover_entries_ok(files: Seq<Segment>, n: int)
    requires
        ids_sorted(files),
        sizes_ok(files),
        0 <= n <= files.len(),
    ensures
        entries_ok(files, recover_upto(files, n)),
    decreases n,
{
    if n > 0 {
        lemma_recover_entries_ok(files, n - 1);
        let seg = files[n - 1];
        lemma_ids_unique(files);
        assert(has_id(files, seg.id));
        assert(idx_of_id(files, seg.id) == n - 1);
        assert(seg_data(files, seg.id) == seg.data@);
        match seg.hint {
            Some(h) => {
                lemma_hint_entries_ok(
                    recover_upto(files, n - 1),
                    files,
                    seg.id,
                    seg.data@.len() as int,
                    h@,
                );
            },
            None => {
                assert(seg.data@.skip(0) =~= seg.data@);
                lemma_chain_entries_ok(recover_upto(files, n - 1), files, seg.id, 0, seg.data@);
            },
        }
    }
}

/// Appending one encoded record to a cleanly framed byte run folds into
/// the recovery map as one more `apply_record` step at the run's end.
pub proof fn lemma_apply_chain_append(
    kd: Map<Seq<u8>, KeyDirEntry>,
    fid: u32,
    off: int,
    s: Seq<u8>,
    r: RecSpec,
)
    requires
        chain_clean(s),
        rec_wf(r),
    ensures
        apply_chain(kd, fid, off, s + spec_encode(r)) == apply_record(
            apply_chain(kd, fid, off, s),
            fid,
            off + s.len(),
            r,
        ),
    decreases s.len(),
{
    let e = spec_encode(r);
    if s.len() == 0 {
        assert(s + e =~= e + Seq::<u8>::empty());
        crate::block::lemma_parse_encode(r, Seq::<u8>::empty());
        assert(parse_head(s + e) == Some((r, rec_size(r))));
        assert((s + e).len() == rec_size(r));
        assert((s + e).skip(rec_size(r)).len() == 0);
        assert(apply_chain(kd, fid, off, s + e) == apply_chain(
            apply_record(kd, fid, off, r),
            fid,
            off + rec_size(r),
            (s + e).skip(rec_size(r)),
        ));
        assert(apply_chain(kd, fid, off, s) == kd);
    } else {
        let p = parse_head(s)->Some_0;
        crate::block::lemma_parse_within(s, e);
        assert(parse_head(s + e) == Some(p));
        crate::block::lemma_parse_head_size(s);
        assert((s + e).skip(p.1) =~= s.skip(p.1) + e);
        lemma_apply_chain_append(apply_record(kd, fid, off, p.0), fid, off + p.1, s.skip(p.1), r);
    }
}

/// A hint file's bytes are a clean run of entries whose spans all fit
/// within `data_len` bytes of the paired segment.
pub open spec fn hint_chain_ok(s: Seq<u8>, data_len: int) -> bool
    decreases s.len(),
{
    if s.len() == 0 {
        true
    } else {
        match parse_hint_head(s) {
            Some(p) => {
                &&& 0 < p.1 <= s.len()
                &&& p.0.value_pos + p.0.value_sz <= data_len
                &&& hint_chain_ok(s.skip(p.1), data_len)
            },
            None => false,
        }
    }
}

pub proof fn lemma_hint_chain_ok_widen(s: Seq<u8>, d1: int, d2: int)
    requires
        hint_chain_ok(s, d1),
        d1 <= d2,
    ensures
        hint_chain_ok(s, d2),
    decreases s.len(),
{
    if s.len() > 0 {
        let p = parse_hint_head(s)->Some_0;
        lemma_hint_chain_ok_widen(s.skip(p.1), d1, d2);
    }
}



/// Two keydirs agree up to relocation: same keys, same timestamps, and
/// entries that read the same value bytes in their respective directories.
pub open spec fn entries_similar(
    f1: Seq<Segment>,
    m1: Map<Seq<u8>, KeyDirEntry>,
    f2: Seq<Segment>,
    m2: Map<Seq<u8>, KeyDirEntry>,
) -> bool {
    &&& m1.dom() == m2.dom()
    &&& forall|k: Seq<u8>|
        m1.contains_key(k) ==> {
            &&& (#[trigger] m1[k]).tstamp == m2[k].tstamp
            &&& entry_ok(f1, m1[k])
            &&& entry_ok(f2, m2[k])
            &&& read_entry(f1, m1[k]) == read_entry(f2, m2[k])
        }
}

/// Scanning the same segment bytes, present in both directories, keeps two
/// relocated-but-agreeing keydirs agreeing: the scan's decisions depend
/// only on keys and timestamps, which the two sides share.
pub proof fn lemma_apply_chain_similar(
    f1: Seq<Segment>,
    m1: Map<Seq<u8>, KeyDirEntry>,
    f2: Seq<Segment>,
    m2: Map<Seq<u8>, KeyDirEntry>,
    fid: u32,
    off: int,
    s: Seq<u8>,
)
    requires
        entries_similar(f1, m1, f2, m2),
        ids_sorted(f1),
        ids_sorted(f2),
        has_id(f1, fid),
        has_id(f2, fid),
        seg_data(f1, fid) == seg_data(f2, fid),
        seg_data(f1, fid).len() <= u32::MAX,
        0 <= off <= seg_data(f1, fid).len(),
        s == seg_data(f1, fid).skip(off),
    ensures
        entries_similar(f1, apply_chain(m1, fid, off, s), f2, apply_chain(m2, fid, off, s)),
    decreases s.len(),
{
    match parse_head(s) {
        Some(p) => {
            if 0 < p.1 <= s.len() {
                crate::block::lemma_parse_head_size(s);
                let m1b = apply_record(m1, fid, off, p.0);
                let m2b = apply_record(m2, fid, off, p.0);
                let klen = p.0.key.len() as int;
                let vlen = p.0.value.len() as int;
                assert(s.len() == seg_data(f1, fid).len() - off);
                assert(off + p.1 <= seg_data(f1, fid).len());
                assert(entries_similar(f1, m1b, f2, m2b)) by {
                    if p.0.value == tombstone_seq() {
                        assert(m1b.dom() =~= m2b.dom());
                    } else {
                        if m1.contains_key(p.0.key) {
                            assert(m1[p.0.key].tstamp == m2[p.0.key].tstamp);
                        }
                        if !m1.contains_key(p.0.key) || m1[p.0.key].tstamp <= p.0.tstamp {
                            let ne = KeyDirEntry {
                                file_id: fid,
                                value_sz: p.0.value.len() as u32,
                                value_pos: (off + 16 + p.0.key.len()) as u32,
                                tstamp: p.0.tstamp,
                            };
                            assert(0 <= off + 16 + klen <= u32::MAX);
                            assert(ne.value_pos + ne.value_sz == off + p.1);
                            assert(entry_ok(f1, ne) && entry_ok(f2, ne));
                            assert(read_entry(f1, ne) == read_entry(f2, ne));
                            assert(m1b == m1.insert(p.0.key, ne));
                            assert(m2b == m2.insert(p.0.key, ne));
                            assert(m1b.dom() =~= m2b.dom());
                        } else {
                            assert(m1b == m1 && m2b == m2);
                        }
                    }
                }
                assert(s.skip(p.1) =~= seg_data(f1, fid).skip(off + p.1));
                lemma_apply_chain_similar(f1, m1b, f2, m2b, fid, off + p.1, s.skip(p.1));
            }
        },
        None => {},
    }
}

/// A clean hint run reads the same under any wider segment bound.
pub proof fn lemma_hint_chain_widen(
    kd: Map<Seq<u8>, KeyDirEntry>,
    fid: u32,
    d1: int,
    d2: int,
    s: Seq<u8>,
)
    requires
        hint_chain_ok(s, d1),
        d1 <= d2,
    ensures
        hint_chain(kd, fid, d2, s) == hint_chain(kd, fid, d1, s),
    decreases s.len(),
{
    if s.len() > 0 {
        let p = parse_hint_head(s)->Some_0;
        assert(0 < p.1 <= s.len() && p.0.value_pos + p.0.value_sz <= d1 && hint_chain_ok(
            s.skip(p.1),
            d1,
        ));
        let kd1 = kd.insert(p.0.key, hint_entry(fid, p.0));
        lemma_hint_chain_widen(kd1, fid, d1, d2, s.skip(p.1));
        assert(hint_chain(kd, fid, d1, s) == hint_chain(kd1, fid, d1, s.skip(p.1)));
        assert(hint_chain(kd, fid, d2, s) == hint_chain(kd1, fid, d2, s.skip(p.1)));
    }
}

/// A clean hint run stays clean when one more in-bounds entry is appended.
#[verifier::spinoff_prover]
#[verifier::rlimit(100)]
pub proof fn lemma_hint_chain_ok_append(data_len: int, s: Seq<u8>, h: HintRec)
    requires
        hint_chain_ok(s, data_len),
        hint_wf(h),
        h.value_pos + h.value_sz <= data_len,
    ensures
        hint_chain_ok(s + spec_encode_hint(h), data_len),
    decreases s.len(),
{
    let e = spec_encode_hint(h);
    let hs = crate::hint::hint_size(h);
    if s.len() == 0 {
        assert(s + e =~= e + Seq::<u8>::empty());
        crate::hint::lemma_parse_encode_hint(h, Seq::<u8>::empty());
        assert(parse_hint_head(s + e) == Some((h, hs)));
        assert((s + e).len() == hs);
        assert((s + e).skip(hs).len() == 0);
        assert(hint_chain_ok((s + e).skip(hs), data_len));
        assert(hint_chain_ok(s + e, data_len));
    } else {
        let p = parse_hint_head(s)->Some_0;
        assert(0 < p.1 <= s.len() && p.0.value_pos + p.0.value_sz <= data_len && hint_chain_ok(
            s.skip(p.1),
            data_len,
        ));
        crate::hint::lemma_parse_hint_within(s, e);
        assert(parse_hint_head(s + e) == Some(p));
        assert((s + e).skip(p.1) =~= s.skip(p.1) + e);
        lemma_hint_chain_ok_append(data_len, s.skip(p.1), h);
        assert(hint_chain_ok((s + e).skip(p.1), data_len));
        assert(hint_chain_ok(s + e, data_len));
    }
}

/// Appending one encoded hint entry to a clean hint run folds into the
/// recovery map as one more insert.
#[verifier::spinoff_prover]
#[verifier::rlimit(100)]
pub proof fn lemma_hint_chain_append(
    kd: Map<Seq<u8>, KeyDirEntry>,
    fid: u32,
    data_len: int,
    s: Seq<u8>,
    h: HintRec,
)
    requires
        hint_chain_ok(s, data_len),
        hint_wf(h),
        h.value_pos + h.value_sz <= data_len,
    ensures
        hint_chain(kd, fid, data_len, s + spec_encode_hint(h)) == hint_chain(
            kd,
            fid,
            data_len,
            s,
        ).insert(h.key, hint_entry(fid, h)),
    decreases s.len(),
{
    let e = spec_encode_hint(h);
    let hs = crate::hint::hint_size(h);
    if s.len() == 0 {
        assert(s + e =~= e + Seq::<u8>::empty());
        crate::hint::lemma_parse_encode_hint(h, Seq::<u8>::empty());
        assert(parse_hint_head(s + e) == Some((h, hs)));
        assert((s + e).len() == hs);
        let kd2 = kd.insert(h.key, hint_entry(fid, h));
        assert((s + e).skip(hs).len() == 0);
        assert(hint_chain(kd2, fid, data_len, (s + e).skip(hs)) == kd2);
        assert(hint_chain(kd, fid, data_len, s + e) == kd2);
        assert(hint_chain(kd, fid, data_len, s) == kd);
    } else {
        let p = parse_hint_head(s)->Some_0;
        assert(0 < p.1 <= s.len() && p.0.value_pos + p.0.value_sz <= data_len && hint_chain_ok(
            s.skip(p.1),
            data_len,
        ));
        crate::hint::lemma_parse_hint_within(s, e);
        assert(parse_hint_head(s + e) == Some(p));
        assert((s + e).skip(p.1) =~= s.skip(p.1) + e);
        let kd1 = kd.insert(p.0.key, hint_entry(fid, p.0));
        lemma_hint_chain_append(kd1, fid, data_len, s.skip(p.1), h);
        assert(hint_chain(kd, fid, data_len, s + e) == hint_chain(
            kd1,
            fid,
            data_len,
            (s + e).skip(p.1),
        ));
        assert(hint_chain(kd, fid, data_len, s) == hint_chain(kd1, fid, data_len, s.skip(p.1)));
    }
}

} // verus!
