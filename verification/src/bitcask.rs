use vstd::prelude::*;

use crate::block::{
    chain_clean, decode_at, parse_head, rec_size, rec_wf, spec_encode, tombstone_seq, Block,
    RecSpec,
};
use crate::dirmodel::{
    apply_chain, apply_record, apply_seg, entries_ok, entry_ok, has_id, hint_chain, hint_entry,
    ids_sorted, idx_of_id, lemma_apply_chain_append, lemma_chain_entries_ok, lemma_ids_unique,
    lemma_recover_entries_ok, lemma_recover_upto_frame, read_entry, recover, recover_upto,
    seg_data, sizes_ok, Dir, Segment,
};
use crate::errors::BitCaskError;
use crate::hint::decode_hint_at;
use crate::keydir::{entries_size, live_entries, KeyDir, KeyDirEntry};
use crate::lex::{clone_bytes, lex_lt};
use crate::utils::now_ts;

verus! {

/// Store configuration: the rotation threshold in bytes. A record whose
/// append would carry the active segment past the limit goes to a fresh
/// segment instead; a limit of zero rotates on every write.
#[derive(Debug, Default, Clone, Copy)]
pub struct Opts {
    data_file_limit: u32,
}

impl Opts {
    pub closed spec fn limit(self) -> u32 {
        self.data_file_limit
    }

    pub fn new(data_file_limit: u32) -> (r: Opts)
        ensures
            r.limit() == data_file_limit,
    {
        Opts { data_file_limit }
    }
}


/// The shape one append leaves the directory in: every segment but the
/// last unchanged, the last extended by one encoded record.
pub open spec fn extended_by(files1: Seq<Segment>, files2: Seq<Segment>, r: RecSpec) -> bool {
    &&& files1.len() > 0
    &&& files2.len() == files1.len()
    &&& (forall|i: int| 0 <= i < files1.len() - 1 ==> files2[i] == files1[i])
    &&& files2.last().id == files1.last().id
    &&& files2.last().hint == files1.last().hint
    &&& files2.last().data@ == files1.last().data@ + spec_encode(r)
}

/// The shape that creating the first segment, or rotating to a fresh one,
/// leaves the directory in: every old segment unchanged, a new empty
/// hintless segment with the given id at the end.
pub open spec fn pushed_fresh(f1: Seq<Segment>, f2: Seq<Segment>, id: u32) -> bool {
    &&& f2.len() == f1.len() + 1
    &&& (forall|i: int| 0 <= i < f1.len() ==> f2[i] == f1[i])
    &&& f2.last().id == id
    &&& f2.last().data@.len() == 0
    &&& f2.last().hint is None
}

/// The append-only effect of one write: every old segment's bytes are
/// unchanged, and the record's encoding lands either at the end of the old
/// active segment or alone in one fresh segment.
pub open spec fn appended_one(f1: Seq<Segment>, f2: Seq<Segment>, r: RecSpec) -> bool {
    ||| (f1.len() > 0 && extended_by(f1, f2, r))
    ||| {
        &&& f2.len() == f1.len() + 1
        &&& (forall|i: int| 0 <= i < f1.len() ==> f2[i] == f1[i])
        &&& f2.last().data@ == spec_encode(r)
        &&& f2.last().hint is None
    }
}

/// Appending one record to the cleanly framed active segment changes what
/// recovery rebuilds by exactly one `apply_record` step.
proof fn lemma_append_recover(files1: Seq<Segment>, files2: Seq<Segment>, r: RecSpec)
    requires
        extended_by(files1, files2, r),
        files1.last().hint is None,
        chain_clean(files1.last().data@),
        rec_wf(r),
    ensures
        recover(files2) == apply_record(
            recover(files1),
            files1.last().id,
            files1.last().data@.len() as int,
            r,
        ),
{
    let n = files1.len() as int;
    let base = recover_upto(files1, n - 1);
    lemma_recover_upto_frame(files2, files1, n - 1);
    assert(files2[n - 1] == files2.last());
    assert(files1[n - 1] == files1.last());
    assert(recover_upto(files2, n) == apply_seg(base, files2.last()));
    assert(recover_upto(files1, n) == apply_seg(base, files1.last()));
    assert(files2.last().hint is None);
    lemma_apply_chain_append(base, files1.last().id, 0, files1.last().data@, r);
}

/// An append does not disturb the bytes any existing in-bounds entry reads.
proof fn lemma_read_frame(files1: Seq<Segment>, files2: Seq<Segment>, r: RecSpec, e: KeyDirEntry)
    requires
        extended_by(files1, files2, r),
        ids_sorted(files1),
        ids_sorted(files2),
        entry_ok(files1, e),
    ensures
        entry_ok(files2, e),
        read_entry(files2, e) == read_entry(files1, e),
{
    let n = files1.len() as int;
    lemma_ids_unique(files1);
    lemma_ids_unique(files2);
    let i1 = idx_of_id(files1, e.file_id);
    assert(files2[i1].id == e.file_id) by {
        if i1 < n - 1 {
            assert(files2[i1] == files1[i1]);
        }
    }
    assert(has_id(files2, e.file_id));
    assert(idx_of_id(files2, e.file_id) == i1);
    if i1 < n - 1 {
        assert(files2[i1] == files1[i1]);
    } else {
        assert(seg_data(files1, e.file_id) == files1.last().data@);
        assert(seg_data(files2, e.file_id) == files1.last().data@ + spec_encode(r));
        assert((files1.last().data@ + spec_encode(r)).subrange(
            e.value_pos as int,
            e.value_pos + e.value_sz,
        ) =~= files1.last().data@.subrange(e.value_pos as int, e.value_pos + e.value_sz));
    }
}

/// A single-writer Bitcask store over an in-memory directory image: an
/// append-only log of records per segment, and a keydir holding the live
/// location of each key.
pub struct BitCaskHandle {
    pub opts: Opts,
    pub next_file_id: u32,
    pub key_dir: KeyDir,
    pub active_file_id: Option<u32>,
    pub max_ts: u32,
    pub dir: Dir,
}

impl View for BitCaskHandle {
    type V = Map<Seq<u8>, Seq<u8>>;

    /// The store as a map from live keys to the value bytes their keydir
    /// entries point at.
    open spec fn view(&self) -> Map<Seq<u8>, Seq<u8>> {
        Map::new(
            |k: Seq<u8>| self.key_dir@.contains_key(k),
            |k: Seq<u8>| read_entry(self.dir.files@, self.key_dir@[k]),
        )
    }
}

impl BitCaskHandle {
    /// Shape of the directory image and the engine counters.
    pub open spec fn wf_dir(self) -> bool {
        &&& ids_sorted(self.dir.files@)
        &&& sizes_ok(self.dir.files@)
        &&& match self.active_file_id {
            Some(id) => {
                &&& self.dir.files@.len() > 0
                &&& self.dir.files@.last().id == id
                &&& id == self.next_file_id
                &&& self.dir.files@.last().hint is None
                &&& chain_clean(self.dir.files@.last().data@)
            },
            None => forall|i: int|
                0 <= i < self.dir.files@.len() ==> #[trigger] self.dir.files@[i].id
                    < self.next_file_id,
        }
    }

    /// The engine invariant: the keydir is exactly what recovery of the
    /// directory image rebuilds, and its timestamps never exceed `max_ts`.
    pub open spec fn wf(self) -> bool {
        &&& self.wf_dir()
        &&& self.key_dir.keys_sorted()
        &&& self.key_dir@ == recover(self.dir.files@)
        &&& forall|k: Seq<u8>|
            self.key_dir@.contains_key(k) ==> (#[trigger] self.key_dir@[k]).tstamp <= self.max_ts
    }

    /// Folds a hint file's entries into the keydir, stopping at a
    /// truncated or out-of-bounds tail.
    #[verifier::rlimit(100)]
    fn load_from_hint(kd: &mut KeyDir, id: u32, dlen: usize, h: &Vec<u8>)
        requires
            old(kd).keys_sorted(),
            dlen <= u32::MAX,
        ensures
            final(kd).keys_sorted(),
            final(kd)@ == hint_chain(old(kd)@, id, dlen as int, h@),
    {
        let ghost kd0 = old(kd)@;
        proof {
            assert(h@.skip(0) =~= h@);
        }
        let hlen = h.len();
        let mut pos: usize = 0;
        let mut done: bool = false;
        while !done
            invariant
                kd.keys_sorted(),
                pos <= hlen == h@.len(),
                dlen <= u32::MAX,
                hint_chain(kd@, id, dlen as int, h@.skip(pos as int)) == hint_chain(
                    kd0,
                    id,
                    dlen as int,
                    h@,
                ),
                done ==> hint_chain(kd@, id, dlen as int, h@.skip(pos as int)) == kd@,
            decreases hlen - pos + (if done {
                0int
            } else {
                1int
            }),
        {
            match decode_hint_at(h, pos) {
                None => {
                    done = true;
                },
                Some((rec, sz)) => {
                    let ghost s = h@.skip(pos as int);
                    proof {
                        crate::hint::lemma_parse_hint_head_size(s);
                        assert(s.skip(sz as int) =~= h@.skip(pos + sz));
                    }
                    let fits = (rec.value_pos as u64) + (rec.value_sz as u64) <= (dlen as u64);
                    if fits {
                        kd.insert(
                            rec.key,
                            KeyDirEntry {
                                file_id: id,
                                value_sz: rec.value_sz,
                                value_pos: rec.value_pos,
                                tstamp: rec.tstamp,
                            },
                        );
                        pos = pos + sz;
                    } else {
                        done = true;
                    }
                },
            }
        }
    }

    /// Folds a segment's records into the keydir in file order, verifying
    /// each record's checksum; a truncated or corrupt tail ends the scan.
    #[verifier::rlimit(100)]
    fn load_from_data(kd: &mut KeyDir, id: u32, data: &Vec<u8>)
        requires
            old(kd).keys_sorted(),
            data@.len() <= u32::MAX,
        ensures
            final(kd).keys_sorted(),
            final(kd)@ == apply_chain(old(kd)@, id, 0, data@),
    {
        let ghost kd0 = old(kd)@;
        proof {
            assert(data@.skip(0) =~= data@);
        }
        let mut pos: usize = 0;
        let mut done: bool = false;
        while !done
            invariant
                kd.keys_sorted(),
                pos <= data@.len() <= u32::MAX,
                apply_chain(kd@, id, pos as int, data@.skip(pos as int)) == apply_chain(
                    kd0,
                    id,
                    0,
                    data@,
                ),
                done ==> apply_chain(kd@, id, pos as int, data@.skip(pos as int)) == kd@,
            decreases data@.len() - pos + (if done {
                0int
            } else {
                1int
            }),
        {
            match decode_at(data, pos) {
                None => {
                    done = true;
                },
                Some((block, sz)) => {
                    let ghost s = data@.skip(pos as int);
                    let ghost r = block.rec();
                    proof {
                        crate::block::lemma_parse_head_size(s);
                        assert(s.skip(sz as int) =~= data@.skip(pos + sz));
                        assert(apply_chain(kd@, id, pos as int, s) == apply_chain(
                            apply_record(kd@, id, pos as int, r),
                            id,
                            pos + sz,
                            s.skip(sz as int),
                        ));
                    }
                    if block.is_removed() {
                        kd.remove(&block.key);
                    } else {
                        let replace = match kd.get(&block.key) {
                            None => true,
                            Some(e) => e.tstamp <= block.tstamp,
                        };
                        if replace {
                            let vpos = pos + 16 + block.key.len();
                            kd.insert(
                                block.key,
                                KeyDirEntry {
                                    file_id: id,
                                    value_sz: block.value_sz,
                                    value_pos: vpos as u32,
                                    tstamp: block.tstamp,
                                },
                            );
                        }
                    }
                    pos = pos + sz;
                },
            }
        }
    }

    /// Rebuilds the keydir changes that one segment contributes: from its
    /// hint file when one is present, else by scanning its records.
    fn load_segment(kd: &mut KeyDir, seg: &Segment)
        requires
            old(kd).keys_sorted(),
            seg.data@.len() <= u32::MAX,
        ensures
            final(kd).keys_sorted(),
            final(kd)@ == apply_seg(old(kd)@, *seg),
    {
        match &seg.hint {
            Some(h) => {
                let dlen = seg.data.len();
                Self::load_from_hint(kd, seg.id, dlen, h);
            },
            None => {
                Self::load_from_data(kd, seg.id, &seg.data);
            },
        }
    }

    /// Opens a store over a directory image: recovers the keydir from the
    /// segments in id order, and computes the id the next segment will get.
    /// No segment becomes active until the first write.
    pub fn open(dir: Dir, opts: Opts) -> (r: Result<BitCaskHandle, BitCaskError>)
        requires
            ids_sorted(dir.files@),
            sizes_ok(dir.files@),
            dir.files@.len() > 0 ==> dir.files@.last().id < u32::MAX,
        ensures
            r is Ok,
            r matches Ok(s) ==> {
                &&& s.wf()
                &&& s.dir == dir
                &&& s.opts == opts
                &&& s.key_dir@ == recover(dir.files@)
                &&& s.active_file_id is None
                &&& s.next_file_id as int == if dir.files@.len() == 0 {
                    0int
                } else {
                    dir.files@.last().id + 1
                }
            },
    {
        let mut kd = KeyDir::new();
        let n = dir.files.len();
        let mut i: usize = 0;
        while i < n
            invariant
                n == dir.files@.len(),
                0 <= i <= n,
                sizes_ok(dir.files@),
                kd.keys_sorted(),
                kd@ == recover_upto(dir.files@, i as int),
            decreases n - i,
        {
            proof {
                assert(dir.files@[i as int].data@.len() <= u32::MAX);
            }
            Self::load_segment(&mut kd, &dir.files[i]);
            i = i + 1;
        }
        let next_file_id = if n == 0 {
            0
        } else {
            dir.files[n - 1].id + 1
        };
        let max_ts = kd.max_tstamp();
        let db = BitCaskHandle {
            opts,
            next_file_id,
            key_dir: kd,
            active_file_id: None,
            max_ts,
            dir,
        };
        proof {
            assert forall|j: int| 0 <= j < db.dir.files@.len() implies #[trigger] db.dir.files@[j].id
                < db.next_file_id by {
                if j < db.dir.files@.len() - 1 {
                    assert(db.dir.files@[j].id < db.dir.files@[db.dir.files@.len() - 1].id);
                }
            }
        }
        Ok(db)
    }

    /// Finds the position of the segment with the given id.
    fn find_seg(files: &Vec<Segment>, id: u32) -> (idx: usize)
        requires
            has_id(files@, id),
            ids_sorted(files@),
        ensures
            idx < files@.len(),
            files@[idx as int].id == id,
            idx as int == idx_of_id(files@, id),
    {
        let n = files.len();
        let mut i: usize = 0;
        while i < n
            invariant
                n == files@.len(),
                0 <= i <= n,
                has_id(files@, id),
                ids_sorted(files@),
                forall|j: int| 0 <= j < i ==> files@[j].id != id,
            decreases n - i,
        {
            if files[i].id == id {
                proof {
                    lemma_ids_unique(files@);
                }
                return i;
            }
            i = i + 1;
        }
        proof {
            assert(false);
        }
        0
    }

    /// Point read: the value bytes the keydir holds for the key, or none
    /// when the key has no live value.
    pub fn get(&self, key: &Vec<u8>) -> (r: Option<Vec<u8>>)
        requires
            self.wf(),
        ensures
            match r {
                Some(v) => self@.contains_key(key@) && v@ == self@[key@],
                None => !self@.contains_key(key@),
            },
    {
        match self.key_dir.get(key) {
            None => None,
            Some(e) => {
                let fid = e.file_id;
                let vsz = e.value_sz;
                let vpos = e.value_pos;
                proof {
                    lemma_recover_entries_ok(self.dir.files@, self.dir.files@.len() as int);
                    assert(entry_ok(self.dir.files@, self.key_dir@[key@]));
                }
                let idx = Self::find_seg(&self.dir.files, fid);
                let data = &self.dir.files[idx].data;
                proof {
                    assert(seg_data(self.dir.files@, fid) == data@);
                }
                let v = crate::block::read_range(
                    data,
                    vpos as usize,
                    vpos as usize + vsz as usize,
                );
                Some(v)
            },
        }
    }

    /// Ensures an active segment exists with room accounted for a record
    /// of `16 + data_len` bytes: creates the first segment lazily, and
    /// rotates to a fresh one when the append would pass the limit.
    fn check_write(&mut self, data_len: u32)
        requires
            old(self).wf(),
            old(self).next_file_id < u32::MAX,
            data_len + 16 <= u32::MAX,
        ensures
            final(self).wf(),
            final(self).active_file_id == Some(final(self).next_file_id),
            final(self).key_dir == old(self).key_dir,
            final(self).max_ts == old(self).max_ts,
            final(self).opts == old(self).opts,
            final(self)@ == old(self)@,
            final(self).dir.files@.len() > 0,
            final(self).dir.files@.last().data@.len() + 16 + data_len <= u32::MAX,
            match old(self).active_file_id {
                None => {
                    &&& final(self).next_file_id == old(self).next_file_id
                    &&& pushed_fresh(
                        old(self).dir.files@,
                        final(self).dir.files@,
                        old(self).next_file_id,
                    )
                },
                Some(id) => {
                    if old(self).dir.files@.last().data@.len() + 16 + data_len > old(
                        self,
                    ).opts.limit() {
                        &&& final(self).next_file_id == old(self).next_file_id + 1
                        &&& pushed_fresh(
                            old(self).dir.files@,
                            final(self).dir.files@,
                            (old(self).next_file_id + 1) as u32,
                        )
                    } else {
                        *final(self) == *old(self)
                    }
                },
            },
    {
        let ghost files0 = self.dir.files@;
        let mut need_new = false;
        let mut new_id: u32 = 0;
        match self.active_file_id {
            None => {
                need_new = true;
                new_id = self.next_file_id;
            },
            Some(_) => {
                let n = self.dir.files.len();
                let offset = self.dir.files[n - 1].data.len();
                if (offset as u64) + 16 + (data_len as u64) > (self.opts.data_file_limit as u64) {
                    self.next_file_id = self.next_file_id + 1;
                    need_new = true;
                    new_id = self.next_file_id;
                }
            },
        }
        if !need_new {
            return ;
        }
        let seg = Segment { id: new_id, data: Vec::new(), hint: None };
        self.dir.files.push(seg);
        self.active_file_id = Some(new_id);
        proof {
            let files1 = self.dir.files@;
            let n0 = files0.len() as int;
            assert(files1 == files0.push(files1.last()));
            assert(ids_sorted(files1)) by {
                assert forall|i: int, j: int| 0 <= i < j < files1.len() implies files1[i].id
                    < files1[j].id by {
                    if j < n0 {
                        assert(files1[i] == files0[i] && files1[j] == files0[j]);
                    } else {
                        assert(files1[i] == files0[i]);
                        match old(self).active_file_id {
                            Some(id) => {
                                if i < n0 - 1 {
                                    assert(files0[i].id < files0[n0 - 1].id);
                                }
                            },
                            None => {},
                        }
                    }
                }
            }
            assert(recover(files1) == recover(files0)) by {
                lemma_recover_upto_frame(files1, files0, n0);
                assert(files1.last().data@.len() == 0);
                reveal(parse_head);
                assert(parse_head(files1.last().data@) is None);
                assert(apply_chain(recover_upto(files1, n0), files1.last().id, 0,
                    files1.last().data@) == recover_upto(files1, n0));
                assert(recover_upto(files1, n0 + 1) == recover_upto(files1, n0));
            }
            assert(self@ =~= old(self)@) by {
                lemma_recover_entries_ok(files0, n0);
                lemma_ids_unique(files1);
                lemma_ids_unique(files0);
                assert forall|k: Seq<u8>| self.key_dir@.contains_key(k) implies read_entry(
                    files1,
                    self.key_dir@[k],
                ) == read_entry(files0, self.key_dir@[k]) by {
                    let e = self.key_dir@[k];
                    assert(entry_ok(files0, e));
                    let i0 = idx_of_id(files0, e.file_id);
                    assert(files1[i0] == files0[i0]);
                    assert(has_id(files1, e.file_id));
                    assert(idx_of_id(files1, e.file_id) == i0);
                    assert(seg_data(files1, e.file_id) == seg_data(files0, e.file_id));
                }
            }
            assert(chain_clean(self.dir.files@.last().data@));
        }
    }

    /// Appends one record for `key` carrying `value` (a user value or the
    /// tombstone sentinel) to the active segment, stamping it with a
    /// timestamp no older than any live entry, and settles the keydir the
    /// way recovery of the grown log would.
    #[verifier::rlimit(100)]
    #[verifier::spinoff_prover]
    fn append(&mut self, key: &Vec<u8>, value: &Vec<u8>)
        requires
            old(self).wf(),
            key@.len() > 0,
            16 + key@.len() + value@.len() <= u32::MAX,
            old(self).next_file_id < u32::MAX,
        ensures
            final(self).wf(),
            final(self).opts == old(self).opts,
            final(self).max_ts >= old(self).max_ts,
            final(self).active_file_id == Some(final(self).next_file_id),
            old(self).next_file_id <= final(self).next_file_id <= old(self).next_file_id + 1,
            final(self).dir.files@.last().id == final(self).next_file_id,
            appended_one(
                old(self).dir.files@,
                final(self).dir.files@,
                RecSpec { tstamp: final(self).max_ts, key: key@, value: value@ },
            ),
            final(self)@ == if value@ == tombstone_seq() {
                old(self)@.remove(key@)
            } else {
                old(self)@.insert(key@, value@)
            },
            final(self).key_dir@ == if value@ == tombstone_seq() {
                old(self).key_dir@.remove(key@)
            } else {
                old(self).key_dir@.insert(
                    key@,
                    KeyDirEntry {
                        file_id: final(self).next_file_id,
                        value_sz: value@.len() as u32,
                        value_pos: (final(self).dir.files@.last().data@.len() - value@.len()) as u32,
                        tstamp: final(self).max_ts,
                    },
                )
            },
    {
        let data_len = key.len() + value.len();
        self.check_write(data_len as u32);
        let ghost mid = *self;
        let tnow = now_ts();
        let t = if tnow > self.max_ts {
            tnow
        } else {
            self.max_ts
        };
        let mut seg = self.dir.files.pop().unwrap();
        let ghost files1 = mid.dir.files@;
        let offset = seg.data.len();
        let block = Block::new(t, clone_bytes(key), clone_bytes(value));
        let mut bytes = block.serialize();
        let ghost r = block.rec();
        let ghost data0 = seg.data@;
        seg.data.append(&mut bytes);
        let fid = seg.id;
        let entry = KeyDirEntry {
            file_id: fid,
            value_sz: value.len() as u32,
            value_pos: (offset + 16 + key.len()) as u32,
            tstamp: t,
        };
        self.dir.files.push(seg);
        let is_tomb = block.is_removed();
        if is_tomb {
            self.key_dir.remove(key);
        } else {
            self.key_dir.insert(clone_bytes(key), entry);
        }
        self.max_ts = t;
        proof {
            let files2 = self.dir.files@;
            let n = files1.len() as int;
            assert(files2.len() == n);
            assert(forall|i: int| 0 <= i < n - 1 ==> files2[i] == files1[i]);
            assert(files2.last().id == fid == files1.last().id);
            assert(files2.last().data@ == data0 + spec_encode(r));
            assert(files2.last().hint is None);
            assert(ids_sorted(files2));
            assert(rec_wf(r));
            assert(data0.len() + rec_size(r) <= u32::MAX);
            assert(sizes_ok(files2)) by {
                assert forall|i: int| 0 <= i < n implies #[trigger] files2[i].data@.len()
                    <= u32::MAX by {
                    if i < n - 1 {
                        assert(files2[i] == files1[i]);
                    }
                }
            }
            // recovery of the grown directory is one more record applied
            assert(extended_by(files1, files2, r));
            lemma_append_recover(files1, files2, r);
            assert(recover(files2) == apply_record(recover(files1), fid, data0.len() as int, r));
            crate::block::lemma_chain_clean_append(data0, r);
            // what apply_record does here matches the keydir update
            assert(r.key == key@ && r.value == value@ && r.tstamp == t);
            if is_tomb {
                assert(recover(files2) == mid.key_dir@.remove(key@));
            } else {
                assert(forall|q: Seq<u8>|
                    mid.key_dir@.contains_key(q) ==> (#[trigger] mid.key_dir@[q]).tstamp
                        <= mid.max_ts);
                if mid.key_dir@.contains_key(key@) {
                    assert(mid.key_dir@[key@].tstamp <= t);
                }
                assert(recover(files2) == mid.key_dir@.insert(key@, entry));
            }
            assert(self.key_dir@ == recover(files2));
            // timestamps stay bounded by the new max
            assert forall|q: Seq<u8>| self.key_dir@.contains_key(q) implies (
            #[trigger] self.key_dir@[q]).tstamp <= self.max_ts by {
                if q != key@ {
                    assert(mid.key_dir@.contains_key(q) && self.key_dir@[q] == mid.key_dir@[q]);
                }
            }
            // reads of untouched keys are unchanged
            lemma_recover_entries_ok(files1, n);
            lemma_ids_unique(files1);
            lemma_ids_unique(files2);
            assert forall|q: Seq<u8>|
                mid.key_dir@.contains_key(q) && q != key@ implies read_entry(
                files2,
                mid.key_dir@[q],
            ) == read_entry(files1, mid.key_dir@[q]) && entry_ok(files2, mid.key_dir@[q]) by {
                assert(entry_ok(files1, mid.key_dir@[q]));
                lemma_read_frame(files1, files2, r, mid.key_dir@[q]);
            }
            // the fresh entry reads back exactly the value written
            assert(has_id(files2, fid)) by {
                assert(files2[n - 1].id == fid);
            }
            assert(idx_of_id(files2, fid) == n - 1);
            assert(seg_data(files2, fid) == data0 + spec_encode(r));
            crate::block::lemma_parse_encode(r, Seq::<u8>::empty());
            crate::block::lemma_parse_head_size(spec_encode(r) + Seq::<u8>::empty());
            assert((spec_encode(r) + Seq::<u8>::empty()).subrange(
                16 + key@.len() as int,
                16 + key@.len() as int + value@.len() as int,
            ) == value@);
            assert((data0 + spec_encode(r)).subrange(
                offset as int + 16 + key@.len() as int,
                offset as int + 16 + key@.len() as int + value@.len() as int,
            ) =~= (spec_encode(r) + Seq::<u8>::empty()).subrange(
                16 + key@.len() as int,
                16 + key@.len() as int + value@.len() as int,
            ));
            if !is_tomb {
                assert(read_entry(files2, entry) == value@);
            }
            assert(self@ =~= (if value@ == tombstone_seq() {
                mid@.remove(key@)
            } else {
                mid@.insert(key@, value@)
            }));
            // the append-only shape, composed through a possible rotation
            assert(appended_one(
                old(self).dir.files@,
                files2,
                RecSpec { tstamp: t, key: key@, value: value@ },
            )) by {
                let f0 = old(self).dir.files@;
                if mid.dir.files@ =~= f0 {
                    assert(extended_by(f0, files2, r));
                } else {
                    assert(pushed_fresh(f0, files1, mid.next_file_id));
                    assert(data0.len() == 0);
                    assert(files2.last().data@ =~= spec_encode(r));
                    assert(forall|i: int| 0 <= i < f0.len() ==> files2[i] == f0[i]);
                }
            }
            // the fresh keydir entry, with its position spelled out
            if !is_tomb {
                assert(entry.value_pos == files2.last().data@.len() - value@.len());
            }
        }
    }

    /// Writes `key -> value`: frames the record, appends it to the active
    /// segment (rotating first if needed), and points the keydir at the
    /// new value bytes. The tombstone sentinel is not a storable value.
    pub fn put(&mut self, key: &Vec<u8>, value: &Vec<u8>) -> (r: Result<(), BitCaskError>)
        requires
            old(self).wf(),
            key@.len() > 0,
            value@ != tombstone_seq(),
            16 + key@.len() + value@.len() <= u32::MAX,
            old(self).next_file_id < u32::MAX,
        ensures
            r is Ok,
            final(self).wf(),
            final(self).opts == old(self).opts,
            final(self)@ == old(self)@.insert(key@, value@),
            final(self).max_ts >= old(self).max_ts,
            final(self).active_file_id == Some(final(self).next_file_id),
            old(self).next_file_id <= final(self).next_file_id <= old(self).next_file_id + 1,
            appended_one(
                old(self).dir.files@,
                final(self).dir.files@,
                RecSpec { tstamp: final(self).max_ts, key: key@, value: value@ },
            ),
            final(self).key_dir@ == old(self).key_dir@.insert(
                key@,
                KeyDirEntry {
                    file_id: final(self).next_file_id,
                    value_sz: value@.len() as u32,
                    value_pos: (final(self).dir.files@.last().data@.len() - value@.len()) as u32,
                    tstamp: final(self).max_ts,
                },
            ),
    {
        self.append(key, value);
        Ok(())
    }

    /// Deletes a key: a no-op returning false when the key has no live
    /// value; otherwise appends a tombstone record and drops the keydir
    /// entry, so that recovery observes the deletion.
    pub fn delete(&mut self, key: &Vec<u8>) -> (r: Result<bool, BitCaskError>)
        requires
            old(self).wf(),
            key@.len() > 0,
            50 + key@.len() <= u32::MAX,
            old(self).next_file_id < u32::MAX,
        ensures
            r is Ok,
            final(self).wf(),
            final(self).opts == old(self).opts,
            r matches Ok(b) ==> b == old(self)@.contains_key(key@),
            final(self)@ == old(self)@.remove(key@),
            final(self).key_dir@ == old(self).key_dir@.remove(key@),
            !old(self)@.contains_key(key@) ==> *final(self) == *old(self),
            old(self).next_file_id <= final(self).next_file_id <= old(self).next_file_id + 1,
            old(self)@.contains_key(key@) ==> appended_one(
                old(self).dir.files@,
                final(self).dir.files@,
                RecSpec { tstamp: final(self).max_ts, key: key@, value: tombstone_seq() },
            ),
    {
        if !self.key_dir.contains_key(key) {
            proof {
                assert(self@ =~= old(self)@.remove(key@));
            }
            return Ok(false);
        }
        let tomb = crate::block::remove_tombstone();
        self.append(key, &tomb);
        Ok(true)
    }

    /// All live keys, in byte-lexicographic order.
    pub fn list_keys(&self) -> (r: Vec<Vec<u8>>)
        requires
            self.wf(),
        ensures
            forall|i: int, j: int| 0 <= i < j < r@.len() ==> lex_lt(r@[i]@, r@[j]@),
            forall|i: int| 0 <= i < r@.len() ==> self@.contains_key(#[trigger] r@[i]@),
            forall|k: Seq<u8>|
                self@.contains_key(k) ==> exists|i: int| 0 <= i < r@.len() && r@[i]@ == k,
    {
        self.key_dir.keys()
    }

    /// Writes the live record of every entry of `kprime` into a fresh
    /// segment body in key order, together with the hint entries that
    /// recovery reads back as exactly the rewritten keydir. Each rewritten
    /// entry keeps its key, timestamp and value bytes; the one failure is
    /// a body whose records cannot all fit within u32 offsets.
    #[verifier::rlimit(100)]
    #[verifier::spinoff_prover]
    fn write_live(kprime: &KeyDir, files: &Vec<Segment>, out_id: u32) -> (r: Result<
        (Vec<u8>, Vec<u8>, KeyDir),
        BitCaskError,
    >)
        requires
            kprime.keys_sorted(),
            entries_ok(files@, kprime@),
            ids_sorted(files@),
            sizes_ok(files@),
        ensures
            r matches Ok(t) ==> {
                &&& t.0@.len() <= u32::MAX
                &&& t.0@.len() as int == entries_size(live_entries(kprime@))
                &&& t.2.keys_sorted()
                &&& t.2@ == hint_chain(
                    Map::<Seq<u8>, KeyDirEntry>::empty(),
                    out_id,
                    t.0@.len() as int,
                    t.1@,
                )
                &&& t.2@.dom() == kprime@.dom()
                &&& (forall|k: Seq<u8>|
                    kprime@.contains_key(k) ==> {
                        &&& (#[trigger] t.2@[k]).file_id == out_id
                        &&& t.2@[k].tstamp == kprime@[k].tstamp
                        &&& t.2@[k].value_sz == kprime@[k].value_sz
                        &&& t.2@[k].value_pos + t.2@[k].value_sz <= t.0@.len()
                        &&& t.0@.subrange(
                            t.2@[k].value_pos as int,
                            t.2@[k].value_pos + t.2@[k].value_sz,
                        ) == read_entry(files@, kprime@[k])
                    })
                &&& ((forall|k: Seq<u8>|
                    kprime@.contains_key(k) ==> read_entry(files@, #[trigger] kprime@[k])
                        != tombstone_seq()) ==> apply_chain(
                    Map::<Seq<u8>, KeyDirEntry>::empty(),
                    out_id,
                    0,
                    t.0@,
                ) == t.2@)
            },
            r is Err <==> entries_size(live_entries(kprime@)) > u32::MAX,
    {
        proof {
            kprime.lemma_view_at();
            kprime.lemma_live_entries();
        }
        let ghost ls = crate::keydir::entry_views(kprime.entries@);
        let ghost em = Map::<Seq<u8>, KeyDirEntry>::empty();
        let mut out_data: Vec<u8> = Vec::new();
        let mut out_hint: Vec<u8> = Vec::new();
        let mut newkd = KeyDir::new();
        proof {
            reveal(crate::hint::parse_hint_head);
            reveal(parse_head);
            assert(out_hint@ =~= Seq::<u8>::empty());
            assert(crate::hint::parse_hint_head(out_hint@) is None);
            assert(parse_head(out_data@) is None);
            assert(ls.subrange(0, 0) =~= Seq::<(Seq<u8>, KeyDirEntry)>::empty());
        }
        let m = kprime.len();
        let mut j: usize = 0;
        while j < m
            invariant
                0 <= j <= m == kprime.entries@.len(),
                kprime.keys_sorted(),
                ids_sorted(files@),
                sizes_ok(files@),
                entries_ok(files@, kprime@),
                ls == crate::keydir::entry_views(kprime.entries@),
                em == Map::<Seq<u8>, KeyDirEntry>::empty(),
                forall|p: int|
                    0 <= p < kprime.entries@.len() ==> kprime@.contains_key(
                        #[trigger] kprime.entries@[p].0@,
                    ) && kprime@[kprime.entries@[p].0@] == kprime.entries@[p].1,
                out_data@.len() <= u32::MAX,
                out_data@.len() as int == entries_size(ls.subrange(0, j as int)),
                chain_clean(out_data@),
                crate::dirmodel::hint_chain_ok(out_hint@, out_data@.len() as int),
                newkd.keys_sorted(),
                newkd@ == hint_chain(em, out_id, out_data@.len() as int, out_hint@),
                forall|k: Seq<u8>|
                    newkd@.contains_key(k) <==> exists|p: int|
                        0 <= p < j && #[trigger] kprime.entries@[p].0@ == k,
                forall|k: Seq<u8>|
                    newkd@.contains_key(k) ==> {
                        &&& (#[trigger] newkd@[k]).file_id == out_id
                        &&& newkd@[k].tstamp == kprime@[k].tstamp
                        &&& newkd@[k].value_sz == kprime@[k].value_sz
                        &&& newkd@[k].value_pos + newkd@[k].value_sz <= out_data@.len()
                        &&& out_data@.subrange(
                            newkd@[k].value_pos as int,
                            newkd@[k].value_pos + newkd@[k].value_sz,
                        ) == read_entry(files@, kprime@[k])
                    },
                (forall|p: int|
                    0 <= p < j ==> read_entry(files@, #[trigger] kprime.entries@[p].1)
                        != tombstone_seq()) ==> apply_chain(em, out_id, 0, out_data@) == newkd@,
            decreases m - j,
        {
            let key = clone_bytes(&kprime.entry_at(j).0);
            let e = kprime.entry_at(j).1;
            proof {
                assert(kprime.entries@[j as int].0@ == key@);
                assert(kprime@.contains_key(key@));
                assert(kprime@[key@] == e);
                assert(entry_ok(files@, e));
                assert(ls[j as int] == (key@, e));
            }
            let idx = Self::find_seg(files, e.file_id);
            let src = &files[idx].data;
            proof {
                assert(seg_data(files@, e.file_id) == src@);
                assert(files@[idx as int].data@.len() <= u32::MAX);
                assert(e.value_pos + e.value_sz <= src@.len());
            }
            let value = crate::block::read_range(
                src,
                e.value_pos as usize,
                e.value_pos as usize + e.value_sz as usize,
            );
            proof {
                assert(value@ == read_entry(files@, e));
            }
            let out_len = out_data.len();
            proof {
                assert(ls.subrange(0, j + 1).drop_last() =~= ls.subrange(0, j as int));
                assert(ls.subrange(0, j + 1).last() == ls[j as int]);
            }
            if (key.len() as u64) > (u32::MAX as u64) || (out_len as u64) + 16 + (key.len()
                as u64) + (value.len() as u64) > (u32::MAX as u64) {
                proof {
                    assert(entries_size(ls.subrange(0, j + 1)) > u32::MAX);
                    crate::keydir::lemma_entries_size_prefix(ls, j + 1);
                    assert(ls.subrange(0, ls.len() as int) =~= ls);
                    assert(entries_size(ls) > u32::MAX);
                    kprime.lemma_live_entries();
                    assert(entries_size(live_entries(kprime@)) > u32::MAX);
                }
                return Err(BitCaskError::IoError);
            }
            let ghost hint_old = out_hint@;
            let ghost data_old = out_data@;
            let ghost dlen_old = out_data@.len() as int;
            let ghost newkd_old = newkd@;
            let block = Block::new(e.tstamp, clone_bytes(&key), value);
            let ghost rec = block.rec();
            let mut bytes = block.serialize();
            out_data.append(&mut bytes);
            let ne = KeyDirEntry {
                file_id: out_id,
                value_sz: e.value_sz,
                value_pos: (out_len + 16 + key.len()) as u32,
                tstamp: e.tstamp,
            };
            crate::hint::push_hint(&mut out_hint, &key, ne.value_sz, ne.value_pos, ne.tstamp);
            proof {
                let h = crate::hint::HintRec {
                    key: key@,
                    value_sz: ne.value_sz,
                    value_pos: ne.value_pos,
                    tstamp: ne.tstamp,
                };
                let dlen_new = out_data@.len() as int;
                assert(dlen_new == dlen_old + rec_size(rec));
                assert(entries_size(ls.subrange(0, j + 1)) == dlen_new);
                assert(h.value_pos + h.value_sz <= dlen_new);
                crate::dirmodel::lemma_hint_chain_ok_widen(hint_old, dlen_old, dlen_new);
                crate::dirmodel::lemma_hint_chain_widen(em, out_id, dlen_old, dlen_new, hint_old);
                crate::dirmodel::lemma_hint_chain_append(em, out_id, dlen_new, hint_old, h);
                crate::dirmodel::lemma_hint_chain_ok_append(dlen_new, hint_old, h);
                assert(hint_entry(out_id, h) == ne);
                crate::block::lemma_chain_clean_append(data_old, rec);
                // the record's value bytes sit at the new entry's span
                crate::block::lemma_parse_encode(rec, Seq::<u8>::empty());
                crate::block::lemma_parse_head_size(spec_encode(rec) + Seq::<u8>::empty());
                assert((spec_encode(rec) + Seq::<u8>::empty()).subrange(
                    16 + key@.len() as int,
                    16 + key@.len() as int + value@.len() as int,
                ) == value@);
                assert(out_data@.subrange(
                    dlen_old + 16 + key@.len() as int,
                    dlen_old + 16 + key@.len() as int + value@.len() as int,
                ) =~= (spec_encode(rec) + Seq::<u8>::empty()).subrange(
                    16 + key@.len() as int,
                    16 + key@.len() as int + value@.len() as int,
                ));
                assert(ne.value_pos == dlen_old + 16 + key@.len());
                assert(out_data@.subrange(ne.value_pos as int, ne.value_pos + ne.value_sz)
                    == read_entry(files@, e));
            }
            newkd.insert(key, ne);
            j = j + 1;
            proof {
                // the entry facts survive the append for the older keys
                assert forall|k: Seq<u8>| newkd@.contains_key(k) implies {
                    &&& (#[trigger] newkd@[k]).file_id == out_id
                    &&& newkd@[k].tstamp == kprime@[k].tstamp
                    &&& newkd@[k].value_sz == kprime@[k].value_sz
                    &&& newkd@[k].value_pos + newkd@[k].value_sz <= out_data@.len()
                    &&& out_data@.subrange(
                        newkd@[k].value_pos as int,
                        newkd@[k].value_pos + newkd@[k].value_sz,
                    ) == read_entry(files@, kprime@[k])
                } by {
                    if k != kprime.entries@[j - 1].0@ {
                        assert(newkd_old.contains_key(k));
                        assert(newkd@[k] == newkd_old[k]);
                        assert(out_data@.subrange(
                            newkd_old[k].value_pos as int,
                            newkd_old[k].value_pos + newkd_old[k].value_sz,
                        ) =~= data_old.subrange(
                            newkd_old[k].value_pos as int,
                            newkd_old[k].value_pos + newkd_old[k].value_sz,
                        ));
                    } else {
                        assert(newkd@[k] == ne);
                    }
                }
                assert forall|k: Seq<u8>| newkd@.contains_key(k) <==> exists|p: int|
                    0 <= p < j && #[trigger] kprime.entries@[p].0@ == k by {
                    if newkd@.contains_key(k) {
                        if k == kprime.entries@[j - 1].0@ {
                            assert(0 <= j - 1 < j && kprime.entries@[j - 1].0@ == k);
                        }
                    }
                    if exists|p: int| 0 <= p < j && #[trigger] kprime.entries@[p].0@ == k {
                        let p = choose|p: int|
                            0 <= p < j && #[trigger] kprime.entries@[p].0@ == k;
                        if p < j - 1 {
                            assert(newkd_old.contains_key(k));
                        }
                    }
                }
                // without tombstone-valued reads, scanning the body agrees
                assert((forall|p: int|
                    0 <= p < j ==> read_entry(files@, #[trigger] kprime.entries@[p].1)
                        != tombstone_seq()) ==> apply_chain(em, out_id, 0, out_data@)
                    == newkd@) by {
                    if forall|p: int|
                        0 <= p < j ==> read_entry(files@, #[trigger] kprime.entries@[p].1)
                            != tombstone_seq() {
                        assert(apply_chain(em, out_id, 0, data_old) == newkd_old);
                        lemma_apply_chain_append(em, out_id, 0, data_old, rec);
                        assert(rec.value == read_entry(files@, kprime.entries@[j - 1].1));
                        assert(rec.value != tombstone_seq());
                        assert(!newkd_old.contains_key(rec.key)) by {
                            if newkd_old.contains_key(rec.key) {
                                let p = choose|p: int|
                                    0 <= p < j - 1 && #[trigger] kprime.entries@[p].0@
                                        == rec.key;
                                assert(lex_lt(
                                    kprime.entries@[p].0@,
                                    kprime.entries@[j - 1].0@,
                                ));
                                crate::lex::lex_lt_trichotomy(
                                    kprime.entries@[p].0@,
                                    kprime.entries@[j - 1].0@,
                                );
                            }
                        }
                        assert(apply_record(newkd_old, out_id, dlen_old, rec) == newkd_old.insert(
                            rec.key,
                            ne,
                        ));
                        assert(apply_chain(em, out_id, 0, out_data@) == newkd@);
                    }
                }
            }
        }
        proof {
            assert(ls.subrange(0, m as int) =~= ls);
            assert(newkd@.dom() =~= kprime@.dom()) by {
                assert forall|k: Seq<u8>| kprime@.contains_key(k) implies newkd@.contains_key(
                    k,
                ) by {
                    let p = kprime.index_of(k);
                    assert(kprime.entries@[p].0@ == k);
                }
            }
            assert((forall|k: Seq<u8>|
                kprime@.contains_key(k) ==> read_entry(files@, #[trigger] kprime@[k])
                    != tombstone_seq()) ==> apply_chain(em, out_id, 0, out_data@) == newkd@) by {
                if forall|k: Seq<u8>|
                    kprime@.contains_key(k) ==> read_entry(files@, #[trigger] kprime@[k])
                        != tombstone_seq() {
                    assert forall|p: int| 0 <= p < m implies read_entry(
                        files@,
                        #[trigger] kprime.entries@[p].1,
                    ) != tombstone_seq() by {
                        assert(kprime@[kprime.entries@[p].0@] == kprime.entries@[p].1);
                    }
                }
            }
        }
        Ok((out_data, out_hint, newkd))
    }

    /// Compacts the sealed segments: rewrites the live record of every key
    /// the sealed segments still govern into one fresh segment in key order
    /// (dropping tombstoned and superseded records), paired with a hint
    /// file that recovery reads back as exactly those entries. The active
    /// segment is untouched and the keydir is rebuilt to match the new
    /// directory; with one segment or fewer the call is a no-op. The only
    /// failure is a merged segment that would outgrow the u32 offsets, and
    /// it leaves the store untouched.
    #[verifier::rlimit(100)]
    #[verifier::spinoff_prover]
    /// How many segments merge works on: all but the active one.
    pub open spec fn sealed_count(self) -> int {
        if self.active_file_id is Some {
            self.dir.files@.len() - 1
        } else {
            self.dir.files@.len() as int
        }
    }

    pub fn merge(&mut self) -> (r: Result<(), BitCaskError>)
        requires
            old(self).wf(),
        ensures
            final(self).wf(),
            final(self).opts == old(self).opts,
            final(self).next_file_id == old(self).next_file_id,
            final(self).active_file_id == old(self).active_file_id,
            final(self).max_ts >= old(self).max_ts,
            r is Err ==> *final(self) == *old(self),
            old(self).dir.files@.len() <= 1 ==> r is Ok && *final(self) == *old(self),
            old(self).dir.files@.len() > 1 ==> (r is Err <==> entries_size(
                live_entries(recover_upto(old(self).dir.files@, old(self).sealed_count())),
            ) > u32::MAX),
            (r is Ok && old(self).dir.files@.len() > 1) ==> {
                &&& final(self).dir.files@.len() == (if old(self).active_file_id is Some {
                    2int
                } else {
                    1int
                })
                &&& (old(self).active_file_id is Some ==> final(self).dir.files@.last() == old(
                    self,
                ).dir.files@.last())
                &&& final(self).dir.files@[0].hint is Some
                &&& final(self).dir.files@[0].id == old(self).dir.files@[old(
                    self,
                ).sealed_count() - 1].id
                &&& final(self).key_dir@ == recover(final(self).dir.files@)
                &&& final(self)@ == old(self)@
                &&& ((forall|k: Seq<u8>|
                    recover_upto(
                        old(self).dir.files@,
                        old(self).sealed_count(),
                    ).contains_key(k) ==> read_entry(
                        old(self).dir.files@,
                        #[trigger] recover_upto(old(self).dir.files@, old(self).sealed_count())[k],
                    ) != tombstone_seq()) ==> apply_chain(
                    Map::<Seq<u8>, KeyDirEntry>::empty(),
                    final(self).dir.files@[0].id,
                    0,
                    final(self).dir.files@[0].data@,
                ) == recover_upto(final(self).dir.files@, 1))
            },
    {
        let n = self.dir.files.len();
        if n <= 1 {
            return Ok(());
        }
        let ghost files0 = self.dir.files@;
        // the sealed segments are all but the active one
        let sealed_len = if self.active_file_id.is_some() {
            n - 1
        } else {
            n
        };
        let out_id = self.dir.files[sealed_len - 1].id;
        // replay recovery over the sealed segments alone
        let mut kprime = KeyDir::new();
        let mut i: usize = 0;
        while i < sealed_len
            invariant
                0 <= i <= sealed_len <= self.dir.files@.len(),
                sizes_ok(self.dir.files@),
                kprime.keys_sorted(),
                kprime@ == recover_upto(self.dir.files@, i as int),
            decreases sealed_len - i,
        {
            proof {
                assert(self.dir.files@[i as int].data@.len() <= u32::MAX);
            }
            Self::load_segment(&mut kprime, &self.dir.files[i]);
            i = i + 1;
        }
        proof {
            lemma_recover_entries_ok(files0, sealed_len as int);
            kprime.lemma_view_at();
            assert(sealed_len as int == old(self).sealed_count());
            assert(kprime@ == recover_upto(files0, old(self).sealed_count()));
        }
        let (out_data, out_hint, newkd) = match Self::write_live(&kprime, &self.dir.files, out_id) {
            Ok(t) => t,
            Err(e) => {
                return Err(e);
            },
        };
        // swap the directory image: one merged segment, then the active one
        let ghost gdata = out_data@;
        let ghost ghint = out_hint@;
        let ghost gnewkd = newkd@;
        let mut newfiles: Vec<Segment> = Vec::new();
        let merged = Segment { id: out_id, data: out_data, hint: Some(out_hint) };
        newfiles.push(merged);
        let mut kd2 = newkd;
        if self.active_file_id.is_some() {
            let act = self.dir.files.pop().unwrap();
            proof {
                assert(act == files0.last());
                assert(act.data@.len() <= u32::MAX);
            }
            Self::load_from_data(&mut kd2, act.id, &act.data);
            newfiles.push(act);
        }
        self.dir = Dir { files: newfiles };
        self.key_dir = kd2;
        let m2 = self.key_dir.max_tstamp();
        if m2 > self.max_ts {
            self.max_ts = m2;
        }
        proof {
            let nf = self.dir.files@;
            assert(recover_upto(nf, 0) == Map::<Seq<u8>, KeyDirEntry>::empty());
            assert(nf[0].id == out_id && nf[0].data@ == gdata && nf[0].hint is Some
                && nf[0].hint->0@ == ghint) by {
                assert(nf[0] == merged);
            }
            assert(recover_upto(nf, 1) == apply_seg(Map::<Seq<u8>, KeyDirEntry>::empty(), nf[0]));
            assert(recover_upto(nf, 1) == hint_chain(
                Map::<Seq<u8>, KeyDirEntry>::empty(),
                out_id,
                gdata.len() as int,
                ghint,
            ));
            assert(recover_upto(nf, 1) == gnewkd);
            lemma_ids_unique(files0);
            // the rewritten keydir agrees with the sealed recovery up to
            // relocation: same keys and timestamps, equal value bytes
            let aa = kprime@;
            let bb = gnewkd;
            assert(crate::dirmodel::entries_similar(files0, aa, nf, bb)) by {
                assert(nf[0].id == out_id);
                assert(has_id(nf, out_id));
                match old(self).active_file_id {
                    Some(id) => {
                        assert(ids_sorted(nf)) by {
                            assert(nf[1] == files0.last());
                            assert(out_id == files0[files0.len() - 2].id);
                            assert(files0[files0.len() - 2].id < files0.last().id);
                        }
                    },
                    None => {
                        assert(nf.len() == 1);
                        assert(ids_sorted(nf));
                    },
                }
                lemma_ids_unique(nf);
                assert(idx_of_id(nf, out_id) == 0);
                assert(seg_data(nf, out_id) == gdata);
                assert forall|k: Seq<u8>| aa.contains_key(k) implies {
                    &&& (#[trigger] aa[k]).tstamp == bb[k].tstamp
                    &&& entry_ok(files0, aa[k])
                    &&& entry_ok(nf, bb[k])
                    &&& read_entry(files0, aa[k]) == read_entry(nf, bb[k])
                } by {
                    assert(bb[k].file_id == out_id);
                    assert(bb[k].value_pos + bb[k].value_sz <= gdata.len());
                    assert(read_entry(nf, bb[k]) == gdata.subrange(
                        bb[k].value_pos as int,
                        bb[k].value_pos + bb[k].value_sz,
                    ));
                }
            }
            match old(self).active_file_id {
                Some(id) => {
                    assert(nf.len() == 2);
                    assert(nf[1] == files0.last());
                    assert(nf.last() == files0.last());
                    assert(out_id == files0[files0.len() - 2].id);
                    assert(files0[files0.len() - 2].id < files0.last().id);
                    assert(ids_sorted(nf));
                    assert(recover_upto(nf, 2) == apply_seg(recover_upto(nf, 1), nf[1]));
                    assert(nf[1].hint is None);
                    assert(self.key_dir@ == recover(nf));
                    // the old keydir is the sealed recovery continued over
                    // the active records; the new one continues the
                    // relocated map over the same records
                    let act = files0.last();
                    lemma_ids_unique(nf);
                    assert(has_id(files0, act.id)) by {
                        assert(files0[files0.len() - 1].id == act.id);
                    }
                    assert(idx_of_id(files0, act.id) == files0.len() - 1);
                    assert(seg_data(files0, act.id) == act.data@);
                    assert(has_id(nf, act.id)) by {
                        assert(nf[1].id == act.id);
                    }
                    assert(idx_of_id(nf, act.id) == 1);
                    assert(seg_data(nf, act.id) == act.data@);
                    assert(act.data@.skip(0) =~= act.data@);
                    crate::dirmodel::lemma_apply_chain_similar(
                        files0,
                        aa,
                        nf,
                        bb,
                        act.id,
                        0,
                        act.data@,
                    );
                    assert(old(self).key_dir@ == apply_chain(aa, act.id, 0, act.data@)) by {
                        assert(recover_upto(files0, files0.len() as int) == apply_seg(
                            recover_upto(files0, files0.len() - 1),
                            files0.last(),
                        ));
                        assert(files0.last().hint is None);
                    }
                    assert(self.key_dir@ == apply_chain(bb, act.id, 0, act.data@));
                    assert(crate::dirmodel::entries_similar(
                        files0,
                        old(self).key_dir@,
                        nf,
                        self.key_dir@,
                    ));
                },
                None => {
                    assert(nf.len() == 1);
                    assert(self.key_dir@ == recover(nf));
                    assert forall|p: int| 0 <= p < nf.len() implies #[trigger] nf[p].id
                        < self.next_file_id by {
                        assert(files0[sealed_len - 1].id < self.next_file_id);
                    }
                    assert(old(self).key_dir@ == aa);
                    assert(self.key_dir@ == bb);
                    assert(crate::dirmodel::entries_similar(
                        files0,
                        old(self).key_dir@,
                        nf,
                        self.key_dir@,
                    ));
                },
            }
            assert(self@ =~= old(self)@) by {
                assert(self.key_dir@.dom() == old(self).key_dir@.dom());
                assert forall|k: Seq<u8>| old(self).key_dir@.contains_key(k) implies read_entry(
                    nf,
                    #[trigger] self.key_dir@[k],
                ) == read_entry(files0, old(self).key_dir@[k]) by {
                    assert(old(self).key_dir@[k].tstamp == self.key_dir@[k].tstamp);
                }
            }
        }
        Ok(())
    }

    /// Flushes the active segment. The directory image holds every byte
    /// already, so there is nothing left to push down.
    pub fn sync(&self) -> (r: Result<(), BitCaskError>)
        ensures
            r is Ok,
    {
        Ok(())
    }

    /// Closing is syncing; the directory image remains available to the
    /// caller for reopening.
    pub fn close(&self) -> (r: Result<(), BitCaskError>)
        ensures
            r is Ok,
    {
        self.sync()
    }
}


/// Recovery equivalence: recovering a well-formed store's directory image
/// rebuilds exactly the store's in-memory keydir.
pub proof fn recovery_equivalence(s: BitCaskHandle)
    requires
        s.wf(),
    ensures
        recover(s.dir.files@) == s.key_dir@,
{
}

/// Reopen equivalence: two well-formed stores over the same directory
/// image (one of them freshly opened, say) read every key to the same
/// bytes, so closing and reopening loses nothing.
pub proof fn reopen_preserves_view(s1: BitCaskHandle, s2: BitCaskHandle)
    requires
        s1.wf(),
        s2.wf(),
        s2.dir == s1.dir,
    ensures
        s2@ == s1@,
{
    assert(s2@ =~= s1@);
}

/// The last write wins: after a put of `v` under `k` the store reads `v`
/// for `k`, and every other key is untouched.
pub proof fn law_put_then_get(pre: Map<Seq<u8>, Seq<u8>>, k: Seq<u8>, v: Seq<u8>, q: Seq<u8>)
    ensures
        pre.insert(k, v).contains_key(k) && pre.insert(k, v)[k] == v,
        q != k ==> pre.insert(k, v).contains_key(q) == pre.contains_key(q),
        q != k && pre.contains_key(q) ==> pre.insert(k, v)[q] == pre[q],
{
}

/// A deleted key reads as absent, and a later put makes it readable again
/// with the new value.
pub proof fn law_delete_then_put(pre: Map<Seq<u8>, Seq<u8>>, k: Seq<u8>, v: Seq<u8>)
    ensures
        !pre.remove(k).contains_key(k),
        pre.remove(k).insert(k, v).contains_key(k),
        pre.remove(k).insert(k, v)[k] == v,
{
}

} // verus!
