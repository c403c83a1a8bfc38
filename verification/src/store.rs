//! Segments: each one owns the byte image of one append-only log file, the
//! in-memory index over it, its identity and status, and the link to its
//! predecessor in the chain.
//!
//! A segment file is a 16-byte header — the segment's own name, then its
//! successor's name, zero meaning none — followed by record frames.

use vstd::prelude::*;
use vstd::set_lib::{lemma_int_range, lemma_len_subset, set_int_range};
use vstd::slice::slice_to_vec;
use vstd::utf8::encode_utf8;

use crate::codec::{
    frame_bytes, frame_len, lemma_index_frame, lemma_parse_frame, lemma_seg_dom,
    lemma_stream_push, read_record, rec_fits, recs_fit, replay, seg_index, seg_kv, stream_bytes,
    write_record, Rec,
};
use crate::endian::{
    append_u64_be, lemma_u64_be_bytes_injective, read_u64_be, spec_u64_from_be_bytes,
    spec_u64_to_be_bytes,
};
use crate::error::DbError;
use crate::index::KeyIndex;
use crate::kv::KeyValue;
use crate::names::{hex_name, parse_file_name};

verus! {

/// Relies on `rand::random`: some `u64`, freshly drawn; nothing is assumed
/// of which one.
#[verifier::external_body]
fn random_u64() -> u64 {
    rand::random::<u64>()
}

/// The 16-byte header of a segment file.
pub open spec fn header_bytes(name: u64, next: u64) -> Seq<u8> {
    spec_u64_to_be_bytes(name) + spec_u64_to_be_bytes(next)
}

/// The successor name as it stands on disk: zero for none.
pub open spec fn next_num(next: Option<u64>) -> u64 {
    match next {
        None => 0,
        Some(n) => n,
    }
}

/// The index agrees with the record stream: same keys, same offsets.
pub open spec fn index_ok(ix: Map<Seq<u8>, u64>, rs: Seq<Rec>) -> bool {
    &&& ix.dom() == seg_index(rs).dom()
    &&& forall|k: Seq<u8>| #[trigger] ix.dom().contains(k) ==> ix[k] as int == seg_index(rs)[k]
}

/// What one segment file holds: its name, its successor's name (zero for
/// none), and its records.
pub struct SegModel {
    pub name: u64,
    pub next: u64,
    pub records: Seq<Rec>,
}

/// What opening a segment file yields.
pub open spec fn spec_open(file: Seq<u8>) -> Result<SegModel, DbError> {
    if file.len() < 16 {
        Err(DbError::InvalidHeader)
    } else {
        let name = spec_u64_from_be_bytes(file.subrange(0, 8));
        let next = spec_u64_from_be_bytes(file.subrange(8, 16));
        if name == 0 {
            Err(DbError::InvalidHeader)
        } else {
            match replay(file, 16) {
                Ok(rs) => Ok(SegModel { name, next, records: rs }),
                Err(e) => Err(e),
            }
        }
    }
}

pub struct DataSgment {
    data: Vec<u8>,
    index: KeyIndex,
    closed: bool,
    previous: Option<Box<DataSgment>>,
    size: u64,
    name: u64,
    next_segment_name: Option<u64>,
    records: Ghost<Seq<Rec>>,
}

pub open spec fn model_names(ms: Seq<SegModel>) -> Seq<u64> {
    Seq::new(ms.len(), |i: int| ms[i].name)
}

impl DataSgment {
    /// The records of this one segment, oldest first.
    pub closed spec fn recs(self) -> Seq<Rec> {
        self.records@
    }

    pub closed spec fn spec_name(self) -> u64 {
        self.name
    }

    pub closed spec fn spec_next(self) -> Option<u64> {
        self.next_segment_name
    }

    pub closed spec fn spec_closed(self) -> bool {
        self.closed
    }

    pub closed spec fn spec_size(self) -> u64 {
        self.size
    }

    /// The full byte image of this segment's file.
    pub closed spec fn file_bytes(self) -> Seq<u8> {
        self.data@
    }

    pub closed spec fn prev(self) -> Option<Box<DataSgment>> {
        self.previous
    }

    pub closed spec fn index_map(self) -> Map<Seq<u8>, u64> {
        self.index@
    }

    pub closed spec fn index_wf(self) -> bool {
        self.index.wf()
    }

    /// This one segment's key map.
    pub open spec fn kv(self) -> Map<Seq<u8>, Seq<u8>> {
        seg_kv(self.recs())
    }

    /// Well-formed as a single segment: the file image is the header
    /// followed by the frames of its records, and the index agrees.
    pub open spec fn seg_wf(self) -> bool {
        &&& recs_fit(self.recs())
        &&& self.file_bytes() == header_bytes(self.spec_name(), next_num(self.spec_next()))
            + stream_bytes(self.recs())
        &&& self.index_wf()
        &&& index_ok(self.index_map(), self.recs())
        &&& self.spec_size() == self.file_bytes().len()
        &&& self.spec_name() != 0
        &&& self.spec_next() != Some(0u64)
    }

    /// This segment and every older one, newest first, as models.
    pub open spec fn chain_models(self) -> Seq<SegModel>
        decreases self,
    {
        seq![
            SegModel {
                name: self.spec_name(),
                next: next_num(self.spec_next()),
                records: self.recs(),
            },
        ] + (match self.prev() {
            None => Seq::<SegModel>::empty(),
            Some(p) => (*p).chain_models(),
        })
    }

    /// The names of this segment and every older one, newest first.
    pub open spec fn chain_names(self) -> Seq<u64> {
        model_names(self.chain_models())
    }

    /// Well-formed as a chain: each segment well-formed, every older one
    /// closed and linked by name to its successor, and no name repeated.
    pub open spec fn chain_wf(self) -> bool
        decreases self,
    {
        &&& self.seg_wf()
        &&& match self.prev() {
            None => true,
            Some(p) => {
                &&& (*p).chain_wf()
                &&& (*p).spec_closed()
                &&& (*p).spec_next() == Some(self.spec_name())
                &&& !(*p).chain_names().contains(self.spec_name())
            },
        }
    }

    /// The combined key map of the chain: entries of older segments
    /// shadowed by newer ones.
    pub open spec fn chain_kv(self) -> Map<Seq<u8>, Seq<u8>>
        decreases self,
    {
        match self.prev() {
            None => self.kv(),
            Some(p) => (*p).chain_kv().union_prefer_right(self.kv()),
        }
    }

    /// Creates a fresh active segment under a newly drawn name.
    pub fn new() -> (s: DataSgment)
        ensures
            s.chain_wf(),
            !s.spec_closed(),
            s.spec_next() is None,
            s.prev() is None,
            s.recs() == Seq::<Rec>::empty(),
            s.kv() == Map::<Seq<u8>, Seq<u8>>::empty(),
            s.spec_size() == 16,
    {
        let drawn = random_u64();
        let name = if drawn == 0 {
            1
        } else {
            drawn
        };
        DataSgment::with_name(name)
    }

    /// Creates a fresh active segment named `name`.
    pub(crate) fn with_name(name: u64) -> (s: DataSgment)
        requires
            name != 0,
        ensures
            s.chain_wf(),
            !s.spec_closed(),
            s.spec_next() is None,
            s.prev() is None,
            s.recs() == Seq::<Rec>::empty(),
            s.kv() == Map::<Seq<u8>, Seq<u8>>::empty(),
            s.spec_size() == 16,
            s.spec_name() == name,
    {
        let mut data: Vec<u8> = Vec::new();
        append_u64_be(&mut data, name);
        append_u64_be(&mut data, 0);
        let size = data.len() as u64;
        let s = DataSgment {
            data,
            index: KeyIndex::new(),
            closed: false,
            previous: None,
            size,
            name,
            next_segment_name: None,
            records: Ghost(Seq::empty()),
        };
        proof {
            assert(s.file_bytes() =~= header_bytes(name, 0) + stream_bytes(s.recs()));
            assert(s.index_map().dom() =~= seg_index(s.recs()).dom());
            assert(s.kv() =~= Map::<Seq<u8>, Seq<u8>>::empty());
        }
        s
    }

    /// Opens a segment from the byte image of its file, replaying every
    /// record frame to rebuild the index. Any error but a clean end of
    /// stream aborts the open.
    pub fn open(data: Vec<u8>) -> (r: Result<DataSgment, DbError>)
        ensures
            match spec_open(data@) {
                Ok(m) => r matches Ok(s) && s.seg_wf() && s.spec_name() == m.name && s.spec_next()
                    == (if m.next == 0 {
                    None::<u64>
                } else {
                    Some(m.next)
                }) && s.recs() == m.records && s.spec_closed() && s.prev() is None
                    && s.file_bytes() == data@ && s.spec_size() == data@.len(),
                Err(e) => r == Err::<DataSgment, DbError>(e),
            },
    {
        if data.len() < 16 {
            return Err(DbError::InvalidHeader);
        }
        let name = read_u64_be(&data, 0);
        let next = read_u64_be(&data, 8);
        if name == 0 {
            return Err(DbError::InvalidHeader);
        }
        let (index, records) = match DataSgment::load_records(&data) {
            Ok(p) => p,
            Err(e) => {
                return Err(e);
            },
        };
        let size = data.len() as u64;
        let next_segment_name = if next == 0 {
            None
        } else {
            Some(next)
        };
        let s = DataSgment {
            data,
            index,
            closed: true,
            previous: None,
            size,
            name,
            next_segment_name,
            records,
        };
        proof {
            lemma_u64_be_bytes_injective(s.data@.subrange(0, 8));
            lemma_u64_be_bytes_injective(s.data@.subrange(8, 16));
            let h = header_bytes(name, next);
            assert forall|j: int| 0 <= j < 16 implies h[j] == s.data@[j] by {
                if j < 8 {
                    assert(spec_u64_to_be_bytes(name)[j] == s.data@.subrange(0, 8)[j]);
                    assert(s.data@.subrange(0, 8)[j] == s.data@[j]);
                } else {
                    assert(spec_u64_to_be_bytes(next)[j - 8] == s.data@.subrange(8, 16)[j - 8]);
                    assert(s.data@.subrange(8, 16)[j - 8] == s.data@[j]);
                }
            }
            assert forall|j: int| 0 <= j < stream_bytes(s.recs()).len() implies stream_bytes(
                s.recs(),
            )[j] == s.data@[16 + j] by {
                assert(s.data@.subrange(16, s.data@.len() as int)[j] == s.data@[16 + j]);
            }
            assert(s.file_bytes() =~= h + stream_bytes(s.recs()));
        }
        Ok(s)
    }

    /// Replays the record region of a segment file front to back,
    /// rebuilding the index; each record unconditionally takes the index
    /// slot of its key, so a tombstone occupies a slot too.
    fn load_records(data: &Vec<u8>) -> (r: Result<(KeyIndex, Ghost<Seq<Rec>>), DbError>)
        requires
            data@.len() >= 16,
        ensures
            match replay(data@, 16) {
                Ok(rs) => r matches Ok((ix, g)) && g@ == rs && ix.wf() && index_ok(ix@, rs)
                    && recs_fit(rs) && stream_bytes(rs) == data@.subrange(
                    16,
                    data@.len() as int,
                ),
                Err(e) => r == Err::<(KeyIndex, Ghost<Seq<Rec>>), DbError>(e),
            },
    {
        let total_len = data.len();
        let mut index = KeyIndex::new();
        let ghost mut rs: Seq<Rec> = Seq::empty();
        let mut pos: u64 = 16;
        proof {
            assert(data@.subrange(16, 16) =~= stream_bytes(rs));
            assert(index@.dom() =~= seg_index(rs).dom());
        }
        loop
            invariant
                data@.len() >= 16,
                data@.len() <= u64::MAX,
                16 <= pos <= data@.len(),
                pos == 16 + stream_bytes(rs).len(),
                data@.subrange(16, pos as int) == stream_bytes(rs),
                recs_fit(rs),
                index.wf(),
                index_ok(index@, rs),
                replay_continues(data@, pos as int, rs),
            decreases data@.len() - pos,
        {
            let parsed = read_record(data, pos);
            match parsed {
                Ok(kv) => {
                    let ghost k = kv.key@;
                    let ghost v = kv.value@;
                    let klen = kv.key.len();
                    let vlen = kv.value.len();
                    let KeyValue { key, value: _ } = kv;
                    proof {
                        crate::codec::lemma_record_frame_bytes(data@, pos as int);
                        lemma_stream_push(rs, k, v);
                    }
                    index.insert(key, pos);
                    let ghost old_rs = rs;
                    let ghost old_pos = pos as int;
                    proof {
                        rs = rs.push((k, v));
                    }
                    pos = pos + 12 + klen as u64 + vlen as u64;
                    proof {
                        assert forall|j: int| 0 <= j < stream_bytes(rs).len() implies data@.subrange(
                            16,
                            pos as int,
                        )[j] == stream_bytes(rs)[j] by {
                            if j < stream_bytes(old_rs).len() {
                                assert(data@.subrange(16, old_pos)[j] == data@[16 + j]);
                            } else {
                                let fo = j - stream_bytes(old_rs).len();
                                assert(data@.subrange(old_pos, old_pos + frame_len(k, v))[fo]
                                    == data@[old_pos + fo]);
                                assert(frame_bytes(k, v)[fo] == stream_bytes(rs)[j]);
                            }
                            assert(data@.subrange(16, pos as int)[j] == data@[16 + j]);
                        }
                        assert(data@.subrange(16, pos as int) =~= stream_bytes(rs));
                        assert forall|q: Seq<u8>| #[trigger] index@.dom().contains(q) implies index@[q]
                            as int == seg_index(rs)[q] by {
                            assert(seg_index(rs) == seg_index(old_rs).insert(k, old_pos));
                        }
                        assert(index@.dom() =~= seg_index(rs).dom());
                        // one step of the replay ran; splice it into the whole
                        let after = replay(data@, pos as int);
                        match after {
                            Ok(rest) => {
                                assert(replay(data@, old_pos) == Ok::<Seq<Rec>, DbError>(
                                    seq![(k, v)] + rest,
                                ));
                                assert(old_rs + (seq![(k, v)] + rest) =~= rs + rest);
                            },
                            Err(_) => {},
                        }
                    }
                },
                Err(e) => {
                    match e {
                        DbError::EndOfStream => {
                            proof {
                                assert(pos == data@.len());
                                assert(rs + Seq::<Rec>::empty() =~= rs);
                            }
                            return Ok((index, Ghost(rs)));
                        },
                        _ => {
                            return Err(e);
                        },
                    }
                },
            }
        }
    }

    /// Appends a record frame for `key_value` at the end of the file and
    /// points the index at it. Writes are append-only.
    pub fn save_record(&mut self, key_value: KeyValue) -> (r: Result<(), DbError>)
        requires
            old(self).chain_wf(),
            key_value.key@.len() <= u32::MAX,
            key_value.value@.len() <= u32::MAX,
        ensures
            r is Ok,
            final(self).chain_wf(),
            final(self).recs() == old(self).recs().push((key_value.key@, key_value.value@)),
            final(self).kv() == old(self).kv().insert(key_value.key@, key_value.value@),
            final(self).chain_kv() == old(self).chain_kv().insert(
                key_value.key@,
                key_value.value@,
            ),
            final(self).spec_name() == old(self).spec_name(),
            final(self).spec_next() == old(self).spec_next(),
            final(self).spec_closed() == old(self).spec_closed(),
            final(self).prev() == old(self).prev(),
            final(self).chain_names() == old(self).chain_names(),
            final(self).spec_size() == old(self).spec_size() + frame_len(
                key_value.key@,
                key_value.value@,
            ),
            final(self).file_bytes() == old(self).file_bytes() + frame_bytes(
                key_value.key@,
                key_value.value@,
            ),
    {
        let KeyValue { key, value } = key_value;
        let ghost k = key@;
        let ghost v = value@;
        let position = self.size;
        let _ = write_record(&mut self.data, &key, &value);
        self.index.insert(key, position);
        self.size = self.data.len() as u64;
        proof {
            let old_rs = self.records@;
            lemma_stream_push(old_rs, k, v);
            self.records@ = old_rs.push((k, v));
            let rs = self.records@;
            assert(self.data@ =~= header_bytes(self.name, next_num(self.next_segment_name))
                + stream_bytes(rs));
            assert forall|q: Seq<u8>| #[trigger] self.index@.dom().contains(q) implies self.index@[q]
                as int == seg_index(rs)[q] by {
                assert(seg_index(rs) == seg_index(old_rs).insert(k, 16 + stream_bytes(
                    old_rs,
                ).len() as int));
            }
            assert(self.index@.dom() =~= seg_index(rs).dom());
            assert(self.chain_names() =~= old(self).chain_names());
            match self.prev() {
                None => {
                    assert(self.chain_kv() == old(self).chain_kv().insert(k, v));
                },
                Some(p) => {
                    assert(self.chain_kv() =~= old(self).chain_kv().insert(k, v));
                },
            }
        }
        Ok(())
    }

    /// Appends a tombstone — a record with an empty value — for `key`.
    pub fn delete_record(&mut self, key: String) -> (r: Result<(), DbError>)
        requires
            old(self).chain_wf(),
            encode_utf8(key@).len() <= u32::MAX,
        ensures
            r is Ok,
            final(self).chain_wf(),
            final(self).recs() == old(self).recs().push((encode_utf8(key@), Seq::<u8>::empty())),
            final(self).kv() == old(self).kv().insert(encode_utf8(key@), Seq::<u8>::empty()),
            final(self).chain_kv() == old(self).chain_kv().insert(
                encode_utf8(key@),
                Seq::<u8>::empty(),
            ),
            final(self).spec_name() == old(self).spec_name(),
            final(self).spec_next() == old(self).spec_next(),
            final(self).spec_closed() == old(self).spec_closed(),
            final(self).prev() == old(self).prev(),
            final(self).chain_names() == old(self).chain_names(),
    {
        let key_bytes: Vec<u8> = slice_to_vec(key.as_str().as_bytes());
        let empty: Vec<u8> = Vec::new();
        self.save_record(KeyValue::new(key_bytes, empty))
    }

    /// Looks `key` up in this one segment's index and reads its record
    /// back from the file; absent keys return `None`.
    pub fn get_record(&self, key: String) -> (r: Result<Option<KeyValue>, DbError>)
        requires
            self.seg_wf(),
        ensures
            ({
                let kb = encode_utf8(key@);
                match r {
                    Ok(Some(kv)) => self.kv().contains_key(kb) && kv.key@ == kb && kv.value@
                        == self.kv()[kb] && kv.value@.len() <= u32::MAX,
                    Ok(None) => !self.kv().contains_key(kb),
                    Err(_) => false,
                }
            }),
    {
        let key_bytes: Vec<u8> = slice_to_vec(key.as_str().as_bytes());
        self.get_record_bytes(&key_bytes)
    }

    /// Looks a raw byte-string key up in this one segment.
    pub fn get_record_bytes(&self, key_bytes: &Vec<u8>) -> (r: Result<Option<KeyValue>, DbError>)
        requires
            self.seg_wf(),
        ensures
            ({
                let kb = key_bytes@;
                match r {
                    Ok(Some(kv)) => self.kv().contains_key(kb) && kv.key@ == kb && kv.value@
                        == self.kv()[kb] && kv.value@.len() <= u32::MAX,
                    Ok(None) => !self.kv().contains_key(kb),
                    Err(_) => false,
                }
            }),
    {
        let position = match self.index.get(key_bytes) {
            Some(position) => position,
            None => {
                proof {
                    lemma_seg_dom(self.recs());
                }
                return Ok(None);
            },
        };
        proof {
            let rs = self.recs();
            let kq = key_bytes@;
            lemma_seg_dom(rs);
            lemma_index_frame(rs, kq);
            let off = seg_index(rs)[kq];
            let valq = seg_kv(rs)[kq];
            let fl = frame_len(kq, valq);
            let h = header_bytes(self.spec_name(), next_num(self.spec_next()));
            let sb = stream_bytes(rs);
            assert(self.data@ == h + sb);
            assert forall|j: int| 0 <= j < fl implies self.data@.subrange(off, off + fl)[j]
                == frame_bytes(kq, valq)[j] by {
                assert(sb.subrange(off - 16, off - 16 + fl)[j] == sb[off - 16 + j]);
                assert(self.data@[off + j] == sb[off - 16 + j]);
                assert(self.data@.subrange(off, off + fl)[j] == self.data@[off + j]);
            }
            assert(self.data@.subrange(off, off + fl) =~= frame_bytes(kq, valq));
            lemma_parse_frame(self.data@, off, kq, valq);
        }
        match read_record(&self.data, position) {
            Ok(data_kv) => Ok(Some(data_kv)),
            Err(err) => Err(err),
        }
    }

    /// The keys this segment's index holds, in insertion order.
    pub closed spec fn spec_key_list(self) -> Seq<Seq<u8>> {
        self.index.spec_keys()
    }

    /// Every listed key holds a value in this segment.
    pub proof fn lemma_key_list(self, i: int)
        requires
            self.seg_wf(),
            0 <= i < self.spec_key_list().len(),
        ensures
            self.kv().contains_key(self.spec_key_list()[i]),
    {
        self.index.lemma_keys();
        lemma_seg_dom(self.recs());
    }

    /// Every key that holds a value in this segment is listed.
    pub proof fn lemma_key_list_complete(self)
        requires
            self.seg_wf(),
        ensures
            forall|k: Seq<u8>|
                self.kv().contains_key(k) ==> #[trigger] self.spec_key_list().contains(k),
    {
        self.index.lemma_keys();
        lemma_seg_dom(self.recs());
        assert forall|k: Seq<u8>| self.kv().contains_key(k) implies #[trigger] self.spec_key_list().contains(
            k,
        ) by {
            assert(self.index_map().dom().contains(k));
            let i = choose|i: int|
                0 <= i < self.index.spec_keys().len() && #[trigger] self.index.spec_keys()[i] == k;
            assert(self.spec_key_list()[i] == k);
        }
    }

    /// A copy of the keys of this segment's index.
    pub fn keys(&self) -> (r: Vec<Vec<u8>>)
        ensures
            r@.len() == self.spec_key_list().len(),
            forall|i: int| 0 <= i < r@.len() ==> (#[trigger] r@[i])@ == self.spec_key_list()[i],
    {
        let mut result: Vec<Vec<u8>> = Vec::new();
        let n = self.index.len();
        let mut i: usize = 0;
        while i < n
            invariant
                i <= n,
                n == self.spec_key_list().len(),
                result@.len() == i,
                forall|j: int|
                    0 <= j < i ==> (#[trigger] result@[j])@ == self.spec_key_list()[j],
            decreases n - i,
        {
            result.push(clone_bytes(self.index.key_at(i)));
            i = i + 1;
        }
        result
    }

    pub fn get_size(&self) -> (n: u64)
        ensures
            n == self.spec_size(),
    {
        self.size
    }

    pub fn get_previous(&self) -> (r: &Option<Box<DataSgment>>)
        ensures
            *r == self.prev(),
    {
        &self.previous
    }

    pub fn is_closed(&self) -> (r: &bool)
        ensures
            *r == self.spec_closed(),
    {
        &self.closed
    }

    /// The 16-hex-digit file name of this segment.
    pub fn get_name(&self) -> (r: String)
        ensures
            r@ == hex_name(self.spec_name()),
    {
        parse_file_name(self.name)
    }

    /// The file name of the successor segment, if one is linked.
    pub fn get_next_segment_name(&self) -> (r: Option<String>)
        ensures
            match r {
                None => self.spec_next() is None,
                Some(s) => self.spec_next() matches Some(n) && s@ == hex_name(n),
            },
    {
        match self.next_segment_name {
            None => None,
            Some(n) => Some(parse_file_name(n)),
        }
    }

    /// The byte image of this segment's file, for callers that persist it.
    pub fn get_file_bytes(&self) -> (r: &Vec<u8>)
        ensures
            r@ == self.file_bytes(),
    {
        &self.data
    }

    /// Closes this segment and links it on disk to the successor named
    /// `next`; the compactor seals its finished chain this way.
    pub(crate) fn close_with_next(&mut self, next: u64)
        requires
            old(self).chain_wf(),
            next != 0,
        ensures
            final(self).chain_wf(),
            final(self).spec_closed(),
            final(self).spec_next() == Some(next),
            final(self).spec_name() == old(self).spec_name(),
            final(self).recs() == old(self).recs(),
            final(self).prev() == old(self).prev(),
            final(self).chain_kv() == old(self).chain_kv(),
            final(self).chain_names() == old(self).chain_names(),
    {
        let ghost s0 = *self;
        self.closed = true;
        proof {
            assert(self.seg_wf());
            assert(self.chain_wf());
            assert(self.chain_kv() == s0.chain_kv());
            assert(self.chain_names() =~= s0.chain_names());
        }
        let ghost s1 = *self;
        self.update_next_file(next);
        proof {
            assert(self.chain_wf());
            assert(self.chain_kv() == s1.chain_kv());
            assert(self.chain_names() =~= s1.chain_names());
        }
    }

    /// Rewrites bytes 8..16 of the header — the successor's name — the one
    /// mutation a closed file ever sees.
    #[verifier::rlimit(50)]
    fn update_next_file(&mut self, name: u64)
        requires
            old(self).seg_wf(),
            name != 0,
        ensures
            final(self).seg_wf(),
            final(self).spec_next() == Some(name),
            final(self).spec_name() == old(self).spec_name(),
            final(self).spec_closed() == old(self).spec_closed(),
            final(self).recs() == old(self).recs(),
            final(self).prev() == old(self).prev(),
            final(self).spec_size() == old(self).spec_size(),
            final(self).index_map() == old(self).index_map(),
    {
        let nb_0 = ((name >> 56) & 0xff) as u8;
        let nb_1 = ((name >> 48) & 0xff) as u8;
        let nb_2 = ((name >> 40) & 0xff) as u8;
        let nb_3 = ((name >> 32) & 0xff) as u8;
        let nb_4 = ((name >> 24) & 0xff) as u8;
        let nb_5 = ((name >> 16) & 0xff) as u8;
        let nb_6 = ((name >> 8) & 0xff) as u8;
        let nb_7 = (name & 0xff) as u8;
        self.data.set(8, nb_0);
        self.data.set(9, nb_1);
        self.data.set(10, nb_2);
        self.data.set(11, nb_3);
        self.data.set(12, nb_4);
        self.data.set(13, nb_5);
        self.data.set(14, nb_6);
        self.data.set(15, nb_7);
        self.next_segment_name = Some(name);
        proof {
            let h2 = header_bytes(self.name, name) + stream_bytes(self.records@);
            let h1 = header_bytes(self.name, next_num(old(self).next_segment_name))
                + stream_bytes(self.records@);
            assert forall|j: int| 0 <= j < self.data@.len() implies self.data@[j] == h2[j] by {
                if j < 8 || j >= 16 {
                    assert(self.data@[j] == old(self).data@[j]);
                    assert(h2[j] == h1[j]);
                }
            }
            assert(self.data@ =~= header_bytes(self.name, name) + stream_bytes(self.records@));
        }
    }

    /// Takes ownership of `segment`, closes it, links it on disk to this
    /// segment, and stores it as this segment's predecessor.
    pub fn set_previous(&mut self, segment: Option<DataSgment>)
        requires
            old(self).chain_wf(),
            match segment {
                None => true,
                Some(s) => s.chain_wf() && !s.chain_names().contains(old(self).spec_name()),
            },
        ensures
            final(self).seg_wf(),
            final(self).spec_name() == old(self).spec_name(),
            final(self).spec_next() == old(self).spec_next(),
            final(self).spec_closed() == old(self).spec_closed(),
            final(self).recs() == old(self).recs(),
            final(self).kv() == old(self).kv(),
            final(self).spec_size() == old(self).spec_size(),
            match segment {
                None => *final(self) == *old(self),
                Some(s) => {
                    &&& final(self).chain_wf()
                    &&& final(self).prev() matches Some(p) && {
                        &&& (*p).spec_name() == s.spec_name()
                        &&& (*p).spec_closed()
                        &&& (*p).spec_next() == Some(old(self).spec_name())
                        &&& (*p).recs() == s.recs()
                        &&& (*p).prev() == s.prev()
                        &&& (*p).chain_kv() == s.chain_kv()
                        &&& (*p).chain_names() == s.chain_names()
                    }
                    &&& final(self).chain_kv() == s.chain_kv().union_prefer_right(
                        old(self).kv(),
                    )
                    &&& final(self).chain_names() == seq![old(self).spec_name()]
                        + s.chain_names()
                },
            },
    {
        if let Some(mut value) = segment {
            let ghost s0 = value;
            value.closed = true;
            proof {
                assert(value.seg_wf());
                assert(value.chain_wf());
                assert(value.chain_kv() == s0.chain_kv());
                assert(value.chain_names() =~= s0.chain_names());
            }
            value.update_next_file(self.name);
            proof {
                assert(value.chain_wf());
                assert(value.chain_kv() == s0.chain_kv());
                assert(value.chain_names() =~= s0.chain_names());
            }
            let ghost v2 = value;
            self.previous = Some(Box::new(value));
            proof {
                assert(self.prev() matches Some(p) && *p == v2);
                assert(self.chain_names() =~= seq![old(self).spec_name()] + v2.chain_names());
                assert(self.chain_kv() == v2.chain_kv().union_prefer_right(old(self).kv()));
            }
        }
    }

    /// Discovers the on-disk chain: reads the `initial_segment` reference,
    /// opens that segment, follows successor links up to the previously
    /// active tail, and creates a fresh active segment on top of it. An
    /// absent reference means a never-initialised directory: the fresh
    /// segment stands alone.
    #[verifier::rlimit(80)]
    pub fn load_dir(files: Vec<Vec<u8>>, initial: Option<Vec<u8>>) -> (r: Result<
        DataSgment,
        DbError,
    >)
        ensures
            match initial {
                None => r matches Ok(s) && s.chain_wf() && !s.spec_closed() && s.spec_next()
                    is None && s.prev() is None && s.recs() == Seq::<Rec>::empty() && s.spec_size()
                    == 16,
                Some(b) => if b@.len() < 8 {
                    r == Err::<DataSgment, DbError>(DbError::InvalidHeader)
                } else if files@.len() + 2 >= u64::MAX {
                    r is Err
                } else {
                    let start = spec_u64_from_be_bytes(b@.subrange(0, 8));
                    let walk = spec_chain(files.deep_view(), start, (files@.len() + 1) as nat);
                    match r {
                        Ok(s) => walk matches Ok(models) && {
                            &&& distinct_names(models)
                            &&& s.chain_wf()
                            &&& !s.spec_closed()
                            &&& s.spec_next() is None
                            &&& s.recs() == Seq::<Rec>::empty()
                            &&& s.spec_size() == 16
                            &&& s.prev() is Some
                            &&& models_correspond(s.chain_models().drop_first(), models.reverse())
                        },
                        Err(e) => {
                            ||| walk == Err::<Seq<SegModel>, DbError>(e)
                            ||| (walk is Err && e == DbError::BrokenChain)
                            ||| (walk matches Ok(ms) && !distinct_names(ms) && e
                                == DbError::BrokenChain)
                        },
                    }
                },
            },
    {
        let initial_bytes = match initial {
            None => {
                return Ok(DataSgment::new());
            },
            Some(b) => b,
        };
        proof {
            assert(initial == Some(initial_bytes));
        }
        if initial_bytes.len() < 8 {
            return Err(DbError::InvalidHeader);
        }
        if files.len() as u64 >= u64::MAX - 2 {
            return Err(DbError::BrokenChain);
        }
        let start = read_u64_be(&initial_bytes, 0);
        let ghost fv = files.deep_view();
        let ghost fuel0 = (files@.len() + 1) as nat;
        proof {
            assert(forall|j: int| 0 <= j < files@.len() ==> fv[j] == #[trigger] files@[j]@);
            match spec_chain(fv, start, fuel0) {
                Ok(rest) => {
                    assert(Seq::<SegModel>::empty() + rest =~= rest);
                },
                Err(_) => {},
            }
        }
        let mut name = start;
        let mut steps: u128 = 0;
        let mut loaded: Option<DataSgment> = None;
        let ghost mut done: Seq<SegModel> = Seq::empty();
        loop
            invariant_except_break
                done.len() == steps,
                walk_continues(fv, start, fuel0, name, (fuel0 - steps) as nat, done),
                match loaded {
                    None => done == Seq::<SegModel>::empty() && name == start && steps == 0,
                    Some(l) => {
                        &&& l.chain_wf()
                        &&& l.spec_closed()
                        &&& l.spec_next() == Some(name)
                        &&& l.chain_models() == done.reverse()
                        &&& steps > 0
                    },
                },
            invariant
                fv == files.deep_view(),
                fuel0 == (files@.len() + 1) as nat,
                files@.len() + 2 < u64::MAX,
                forall|j: int| 0 <= j < files@.len() ==> fv[j] == #[trigger] files@[j]@,
                initial == Some(initial_bytes),
                initial_bytes@.len() >= 8,
                start == spec_u64_from_be_bytes(initial_bytes@.subrange(0, 8)),
                steps <= files@.len() + 1,
                distinct_names(done),
            ensures
                loaded matches Some(l) && l.chain_wf() && l.spec_closed() && l.spec_next() is None
                    && l.chain_models() == done.reverse() && distinct_names(done) && done.len()
                    <= files@.len() + 1 && spec_chain(fv, start, fuel0) == Ok::<
                    Seq<SegModel>,
                    DbError,
                >(done),
            decreases files@.len() + 1 - steps,
        {
            if steps > files.len() as u128 {
                proof {
                    assert((fuel0 - steps) as nat == 0);
                }
                return Err(DbError::BrokenChain);
            }
            let ghost fuel = (fuel0 - steps) as nat;
            let idx = match find_segment(&files, name) {
                Some(i) => i,
                None => {
                    return Err(DbError::MissingSegment { name });
                },
            };
            proof {
                lemma_find_file(fv, name);
            }
            let file_copy = clone_bytes(&files[idx]);
            let seg = match DataSgment::open(file_copy) {
                Ok(s) => s,
                Err(e) => {
                    return Err(e);
                },
            };
            let ghost m = spec_open(fv[idx as int])->Ok_0;
            proof {
                assert(seg.spec_name() == m.name && seg.recs() == m.records && next_num(
                    seg.spec_next(),
                ) == m.next);
                assert(m.name == name);
            }
            // a name seen twice means the on-disk successor links cycle
            let duplicate = match &loaded {
                Some(l) => chain_contains(l, seg.name),
                None => false,
            };
            if duplicate {
                proof {
                    let lnames = model_names(done.reverse());
                    let i0 = choose|i: int| 0 <= i < lnames.len() && lnames[i] == m.name;
                    assert(done[done.len() - 1 - i0].name == m.name);
                    match spec_chain(fv, name, fuel) {
                        Ok(rest) => {
                            assert(rest[0] == m);
                            assert((done + rest)[done.len() - 1 - i0].name == m.name);
                            assert((done + rest)[done.len() as int].name == m.name);
                            assert(!distinct_names(done + rest));
                        },
                        Err(_) => {},
                    }
                }
                return Err(DbError::BrokenChain);
            }
            let nx: Option<u64> = seg.next_segment_name;
            let mut seg = seg;
            let ghost done_old = done;
            match loaded {
                None => {},
                Some(older) => {
                    let ghost golder = older;
                    seg.previous = Some(Box::new(older));
                    proof {
                        assert(seg.chain_wf());
                        assert(seg.chain_models() =~= seq![m] + golder.chain_models());
                    }
                },
            }
            proof {
                done = done.push(m);
                assert forall|a: int, b: int|
                    #![trigger done[a], done[b]]
                    0 <= a < b < done.len() implies done[a].name != done[b].name by {
                    if b == done.len() - 1 {
                        let lnames = model_names(done_old.reverse());
                        assert(lnames[done_old.len() - 1 - a] == done_old[a].name);
                    }
                }
                assert(done.reverse() =~= seq![m] + done_old.reverse());
                if done_old.len() == 0 {
                    assert(seg.chain_models() =~= seq![m]);
                }
                assert(seg.chain_models() == done.reverse());
            }
            loaded = Some(seg);
            match nx {
                None => {
                    proof {
                        assert(m.next == 0);
                        assert(spec_chain(fv, name, fuel) == Ok::<Seq<SegModel>, DbError>(
                            seq![m],
                        ));
                        assert(done_old + seq![m] =~= done);
                    }
                    break ;
                },
                Some(n2) => {
                    proof {
                        assert(m.next == n2 && n2 != 0);
                        match spec_chain(fv, n2, (fuel - 1) as nat) {
                            Ok(rest) => {
                                assert(spec_chain(fv, name, fuel) == Ok::<Seq<SegModel>, DbError>(
                                    seq![m] + rest,
                                ));
                                assert(done_old + (seq![m] + rest) =~= done + rest);
                            },
                            Err(_) => {},
                        }
                    }
                    name = n2;
                    steps = steps + 1;
                },
            }
        }
        let tail = match loaded {
            Some(t) => t,
            None => {
                return Err(DbError::BrokenChain);
            },
        };
        let names = collect_chain_names(&tail);
        proof {
            assert(names@.len() == done.len());
        }
        let fresh = match fresh_name(&names) {
            Some(nm) => nm,
            None => {
                proof {
                    assert(false);
                }
                return Err(DbError::BrokenChain);
            },
        };
        let ghost gtail = tail;
        let mut active = DataSgment::with_name(fresh);
        active.set_previous(Some(tail));
        proof {
            let p = active.prev()->Some_0;
            assert(active.chain_models().drop_first() =~= (*p).chain_models());
            assert((*p).prev() == gtail.prev());
            match gtail.prev() {
                None => {
                    assert((*p).chain_models() =~= seq![(*p).chain_models()[0]]);
                },
                Some(_) => {},
            }
            assert(models_correspond((*p).chain_models(), gtail.chain_models()));
            assert(models_correspond(active.chain_models().drop_first(), done.reverse()));
        }
        Ok(active)
    }
}

/// Whether `file` is the segment file named `name`: its first eight bytes
/// hold that name.
pub open spec fn file_matches(file: Seq<u8>, name: u64) -> bool {
    file.len() >= 8 && spec_u64_from_be_bytes(file.subrange(0, 8)) == name
}

/// The first file named `name`, or -1.
pub open spec fn find_file(files: Seq<Seq<u8>>, name: u64) -> int
    decreases files.len(),
{
    if files.len() == 0 {
        -1
    } else if file_matches(files[0], name) {
        0
    } else {
        let r = find_file(files.drop_first(), name);
        if r == -1 {
            -1
        } else {
            r + 1
        }
    }
}

pub proof fn lemma_find_file(files: Seq<Seq<u8>>, name: u64)
    ensures
        ({
            let r = find_file(files, name);
            &&& r == -1 ==> forall|j: int|
                0 <= j < files.len() ==> !file_matches(#[trigger] files[j], name)
            &&& r != -1 ==> 0 <= r < files.len() && file_matches(files[r], name) && forall|j: int|
                0 <= j < r ==> !file_matches(#[trigger] files[j], name)
        }),
    decreases files.len(),
{
    if files.len() == 0 {
    } else if file_matches(files[0], name) {
    } else {
        let rest = files.drop_first();
        lemma_find_file(rest, name);
        let r0 = find_file(rest, name);
        if r0 == -1 {
            assert forall|j: int| 0 <= j < files.len() implies !file_matches(
                #[trigger] files[j],
                name,
            ) by {
                if j > 0 {
                    assert(rest[j - 1] == files[j]);
                    assert(!file_matches(rest[j - 1], name));
                }
            }
        } else {
            assert(files[r0 + 1] == rest[r0]);
            assert forall|j: int| 0 <= j < r0 + 1 implies !file_matches(
                #[trigger] files[j],
                name,
            ) by {
                if j > 0 {
                    assert(rest[j - 1] == files[j]);
                    assert(!file_matches(rest[j - 1], name));
                }
            }
        }
    }
}

/// No two segments of the walk bear the same name.
pub open spec fn distinct_names(ms: Seq<SegModel>) -> bool {
    forall|i: int, j: int|
        #![trigger ms[i], ms[j]]
        0 <= i < j < ms.len() ==> ms[i].name != ms[j].name
}

/// Two chains hold the same segments: same names, same records.
pub open spec fn models_correspond(a: Seq<SegModel>, b: Seq<SegModel>) -> bool {
    &&& a.len() == b.len()
    &&& forall|i: int|
        #![trigger a[i], b[i]]
        0 <= i < a.len() ==> a[i].name == b[i].name && a[i].records == b[i].records
}

/// The chain the startup walk reads off the directory: open the segment
/// named `name`, follow its successor link, and so on until a segment
/// without a successor; oldest first. The fuel bounds the walk, so a
/// directory whose links cycle runs out of it.
pub open spec fn spec_chain(files: Seq<Seq<u8>>, name: u64, fuel: nat) -> Result<
    Seq<SegModel>,
    DbError,
>
    decreases fuel,
{
    if fuel == 0 {
        Err(DbError::BrokenChain)
    } else {
        let i = find_file(files, name);
        if i == -1 {
            Err(DbError::MissingSegment { name })
        } else {
            match spec_open(files[i]) {
                Err(e) => Err(e),
                Ok(m) => if m.next == 0 {
                    Ok(seq![m])
                } else {
                    match spec_chain(files, m.next, (fuel - 1) as nat) {
                        Ok(rest) => Ok(seq![m] + rest),
                        Err(e) => Err(e),
                    }
                },
            }
        }
    }
}

/// The whole walk is the segments already opened, followed by whatever the
/// walk from `name` still yields.
pub open spec fn walk_continues(
    files: Seq<Seq<u8>>,
    start: u64,
    fuel0: nat,
    name: u64,
    fuel: nat,
    done: Seq<SegModel>,
) -> bool {
    match spec_chain(files, name, fuel) {
        Ok(rest) => spec_chain(files, start, fuel0) == Ok::<Seq<SegModel>, DbError>(done + rest),
        Err(e) => spec_chain(files, start, fuel0) == Err::<Seq<SegModel>, DbError>(e),
    }
}

pub(crate) fn clone_bytes(v: &Vec<u8>) -> (r: Vec<u8>)
    ensures
        r@ == v@,
{
    slice_to_vec(v.as_slice())
}

/// The first file whose header names `name`.
fn find_segment(files: &Vec<Vec<u8>>, name: u64) -> (r: Option<usize>)
    ensures
        match r {
            Some(i) => i < files@.len() && find_file(files.deep_view(), name) == i as int,
            None => find_file(files.deep_view(), name) == -1,
        },
{
    let ghost fv = files.deep_view();
    proof {
        lemma_find_file(fv, name);
        assert(forall|j: int| 0 <= j < files@.len() ==> fv[j] == #[trigger] files@[j]@);
    }
    let n = files.len();
    let mut i: usize = 0;
    while i < n
        invariant
            i <= n,
            n == files@.len(),
            fv == files.deep_view(),
            forall|j: int| 0 <= j < files@.len() ==> fv[j] == #[trigger] files@[j]@,
            forall|j: int| 0 <= j < i ==> !file_matches(#[trigger] fv[j], name),
        decreases n - i,
    {
        if files[i].len() >= 8 {
            let header_name = read_u64_be(&files[i], 0);
            if header_name == name {
                proof {
                    lemma_find_file(fv, name);
                }
                return Some(i);
            }
        }
        i = i + 1;
    }
    proof {
        lemma_find_file(fv, name);
    }
    None
}

/// Whether `name` names this segment or any older one.
pub fn chain_contains(segment: &DataSgment, name: u64) -> (r: bool)
    ensures
        r == segment.chain_names().contains(name),
    decreases segment,
{
    proof {
        lemma_chain_names_head(*segment);
    }
    if segment.name == name {
        proof {
            assert(segment.chain_names()[0] == name);
        }
        return true;
    }
    match &segment.previous {
        None => {
            proof {
                assert forall|i: int|
                    0 <= i < segment.chain_names().len() implies segment.chain_names()[i]
                    != name by {}
            }
            false
        },
        Some(p) => {
            let r = chain_contains(p, name);
            proof {
                let names = segment.chain_names();
                let pnames = (*segment.prev().unwrap()).chain_names();
                if r {
                    let i = choose|i: int| 0 <= i < pnames.len() && pnames[i] == name;
                    assert(names[i + 1] == name);
                } else {
                    assert forall|i: int| 0 <= i < names.len() implies names[i] != name by {
                        if i > 0 {
                            assert(pnames[i - 1] == names[i]);
                        }
                    }
                }
            }
            r
        },
    }
}

/// Walks the chain newest to oldest and returns the record the first
/// segment that knows `key` holds — a tombstone included.
pub fn chain_get_record(segment: &DataSgment, key_bytes: &Vec<u8>) -> (r: Result<
    Option<KeyValue>,
    DbError,
>)
    requires
        segment.chain_wf(),
    ensures
        match r {
            Ok(Some(kv)) => segment.chain_kv().contains_key(key_bytes@) && kv.key@ == key_bytes@
                && kv.value@ == segment.chain_kv()[key_bytes@],
            Ok(None) => !segment.chain_kv().contains_key(key_bytes@),
            Err(_) => false,
        },
    decreases segment,
{
    let record = match segment.get_record_bytes(key_bytes) {
        Ok(found) => found,
        Err(err) => {
            return Err(err);
        },
    };
    match record {
        Some(_) => Ok(record),
        None => {
            match &segment.previous {
                Some(next) => chain_get_record(next, key_bytes),
                None => Ok(None),
            }
        },
    }
}

/// Whether any segment of the chain holds a record for `key`, tombstones
/// included.
pub fn chain_has_key(segment: &DataSgment, key: &Vec<u8>) -> (r: bool)
    requires
        segment.chain_wf(),
    ensures
        r == segment.chain_kv().contains_key(key@),
    decreases segment,
{
    proof {
        crate::codec::lemma_seg_dom(segment.recs());
    }
    let here = match segment.index.get(key) {
        Some(_) => true,
        None => false,
    };
    if here {
        return true;
    }
    match &segment.previous {
        None => false,
        Some(p) => chain_has_key(p, key),
    }
}

/// The name of the oldest segment of the chain: what the directory's
/// `initial_segment` marker must hold.
pub fn oldest_name(segment: &DataSgment) -> (r: u64)
    ensures
        r == segment.chain_names().last(),
    decreases segment,
{
    proof {
        lemma_chain_names_head(*segment);
    }
    match &segment.previous {
        None => segment.name,
        Some(p) => {
            let r = oldest_name(p);
            proof {
                let names = segment.chain_names();
                let pnames = (*segment.prev().unwrap()).chain_names();
                assert(names.last() == pnames.last());
            }
            r
        },
    }
}

/// The names of this segment and every older one, newest first, as a list.
pub fn collect_chain_names(segment: &DataSgment) -> (r: Vec<u64>)
    ensures
        r@ == segment.chain_names(),
    decreases segment,
{
    proof {
        lemma_chain_names_head(*segment);
    }
    let mut names: Vec<u64> = Vec::new();
    names.push(segment.name);
    match &segment.previous {
        None => {
            proof {
                assert(names@ =~= segment.chain_names());
            }
            names
        },
        Some(p) => {
            let mut rest = collect_chain_names(p);
            names.append(&mut rest);
            proof {
                assert(names@ =~= segment.chain_names());
            }
            names
        },
    }
}

/// The head of a chain's name list is the segment's own name, and the rest
/// are the names of its predecessors.
pub proof fn lemma_chain_names_head(seg: DataSgment)
    ensures
        seg.chain_names().len() >= 1,
        seg.chain_names()[0] == seg.spec_name(),
        match seg.prev() {
            None => seg.chain_names() == seq![seg.spec_name()],
            Some(p) => seg.chain_names() == seq![seg.spec_name()] + (*p).chain_names(),
        },
{
    match seg.prev() {
        None => {
            assert(seg.chain_names() =~= seq![seg.spec_name()]);
        },
        Some(p) => {
            assert(seg.chain_names() =~= seq![seg.spec_name()] + (*p).chain_names());
        },
    }
}

/// Whether `x` occurs in `names`.
fn vec_contains(names: &Vec<u64>, x: u64) -> (r: bool)
    ensures
        r == names@.contains(x),
{
    let n = names.len();
    let mut i: usize = 0;
    while i < n
        invariant
            i <= n,
            n == names@.len(),
            forall|j: int| 0 <= j < i ==> names@[j] != x,
        decreases n - i,
    {
        if names[i] == x {
            return true;
        }
        i = i + 1;
    }
    false
}

/// Fewer names than values: some value in 1 ..= names.len() + 1 is unused.
proof fn lemma_free_name(names: Seq<u64>)
    requires
        names.len() < u64::MAX,
    ensures
        exists|c: u64| 1 <= c <= names.len() + 1 && !(#[trigger] names.contains(c)),
{
    let ints = names.map_values(|v: u64| v as int);
    if forall|c: u64| 1 <= c <= names.len() + 1 ==> #[trigger] names.contains(c) {
        let cand = set_int_range(1, names.len() as int + 2);
        lemma_int_range(1, names.len() as int + 2);
        ints.lemma_cardinality_of_set();
        assert forall|c: int| cand.contains(c) implies ints.to_set().contains(c) by {
            let cu = c as u64;
            assert(names.contains(cu));
            let i = choose|i: int| 0 <= i < names.len() && names[i] == cu;
            assert(ints[i] == c);
            assert(ints.contains(c));
        }
        assert(cand.subset_of(ints.to_set()));
        lemma_len_subset(cand, ints.to_set());
        assert(false);
    }
}

/// A name that no segment of the chain bears: a fresh random one when the
/// draw is lucky, else the smallest unused positive value. Only a chain
/// that has used every name has none to give.
pub(crate) fn fresh_name(names: &Vec<u64>) -> (r: Option<u64>)
    ensures
        match r {
            Some(c) => c != 0 && !names@.contains(c),
            None => names@.len() >= u64::MAX,
        },
{
    let drawn = random_u64();
    if drawn != 0 && !vec_contains(names, drawn) {
        return Some(drawn);
    }
    let n = names.len();
    if n as u64 == u64::MAX {
        return None;
    }
    proof {
        lemma_free_name(names@);
    }
    let ghost c0: u64 = choose|c: u64|
        1 <= c <= names@.len() + 1 && !(#[trigger] names@.contains(c));
    let mut c: u64 = 1;
    loop
        invariant
            names@.len() < u64::MAX,
            1 <= c <= c0 <= names@.len() + 1,
            !names@.contains(c0),
        decreases c0 - c,
    {
        if !vec_contains(names, c) {
            return Some(c);
        }
        proof {
            assert(c < c0);
        }
        c = c + 1;
    }
}

/// The replay of the whole file is the records already read, followed by
/// whatever replaying from `pos` still yields.
pub open spec fn replay_continues(data: Seq<u8>, pos: int, done: Seq<Rec>) -> bool {
    match replay(data, pos) {
        Ok(rest) => replay(data, 16) == Ok::<Seq<Rec>, DbError>(done + rest),
        Err(e) => replay(data, 16) == Err::<Seq<Rec>, DbError>(e),
    }
}

} // verus!
