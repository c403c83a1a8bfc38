//! The database front end and the log compactor.
//!
//! `RustDB` presents get/put/delete over the whole segment chain and
//! rotates the active segment when it outgrows the size threshold.
//! `LogCompressor` folds the closed segments into one fresh chain holding
//! only the latest record of each key.

use vstd::prelude::*;
use vstd::utf8::encode_utf8;

use crate::codec::{frame_len, seg_kv, Rec};
use crate::endian::{append_u64_be, spec_u64_to_be_bytes};
use crate::error::DbError;
use crate::kv::KeyValue;
use crate::names::hex_name;
use crate::store::{
    chain_contains, chain_has_key, clone_bytes, collect_chain_names, distinct_names, fresh_name,
    models_correspond, oldest_name, spec_chain, spec_open, DataSgment, SegModel,
};

verus! {

/// The size past which the active segment is closed and a new one opened.
pub const MAX_SIZE_FILE: u64 = 1000;

/// What a lookup of `k` yields: the latest value, unless it is absent or a
/// tombstone.
pub open spec fn live_lookup(m: Map<Seq<u8>, Seq<u8>>, k: Seq<u8>) -> Option<Seq<u8>> {
    if m.contains_key(k) && m[k].len() > 0 {
        Some(m[k])
    } else {
        None
    }
}

/// The combined key map of segment file images, newest first: each file's
/// records count only for the keys no earlier (newer) file has set.
pub open spec fn combined_kv_upto(files: Seq<Seq<u8>>, upto: int) -> Map<Seq<u8>, Seq<u8>>
    decreases upto,
{
    if upto <= 0 {
        Map::empty()
    } else {
        file_kv(files[upto - 1]).union_prefer_right(combined_kv_upto(files, upto - 1))
    }
}

/// The key map one segment file holds, or nothing if it does not open.
pub open spec fn file_kv(file: Seq<u8>) -> Map<Seq<u8>, Seq<u8>> {
    match spec_open(file) {
        Ok(m) => seg_kv(m.records),
        Err(_) => Map::empty(),
    }
}

pub open spec fn combined_kv(files: Seq<Seq<u8>>) -> Map<Seq<u8>, Seq<u8>> {
    combined_kv_upto(files, files.len() as int)
}

/// Every file of the snapshot opens cleanly.
pub open spec fn all_files_open(files: Seq<Seq<u8>>) -> bool {
    forall|i: int| 0 <= i < files.len() ==> spec_open(#[trigger] files[i]) is Ok
}

pub struct RustDB {
    pub segment: Option<DataSgment>,
}

impl RustDB {
    /// The database is a well-formed chain headed by an open active
    /// segment without a successor.
    pub open spec fn wf(self) -> bool {
        match self.segment {
            None => true,
            Some(s) => s.chain_wf() && !s.spec_closed() && s.spec_next() is None,
        }
    }

    /// The combined key map of the whole chain, tombstones included.
    pub open spec fn kv(self) -> Map<Seq<u8>, Seq<u8>> {
        match self.segment {
            None => Map::empty(),
            Some(s) => s.chain_kv(),
        }
    }

    /// Rebuilds the database from the directory's files and its
    /// `initial_segment` reference, handed over as raw bytes.
    pub fn load(files: Vec<Vec<u8>>, initial: Option<Vec<u8>>) -> (r: Result<RustDB, DbError>)
        ensures
            match r {
                Ok(db) => db.wf() && (db.segment matches Some(s) && !s.spec_closed()
                    && s.spec_next() is None && s.recs() == Seq::<Rec>::empty() && s.spec_size()
                    == 16),
                Err(_) => true,
            },
            match initial {
                None => r matches Ok(db) && (db.segment matches Some(s) && s.prev() is None),
                Some(b) => if b@.len() < 8 {
                    r == Err::<RustDB, DbError>(DbError::InvalidHeader)
                } else if files@.len() + 2 >= u64::MAX {
                    r is Err
                } else {
                    let start = crate::endian::spec_u64_from_be_bytes(b@.subrange(0, 8));
                    let walk = spec_chain(files.deep_view(), start, (files@.len() + 1) as nat);
                    match r {
                        Ok(db) => walk matches Ok(models) && {
                            &&& distinct_names(models)
                            &&& (db.segment matches Some(s) && s.prev() is Some
                                && models_correspond(
                                s.chain_models().drop_first(),
                                models.reverse(),
                            ))
                        },
                        Err(e) => {
                            ||| walk == Err::<Seq<SegModel>, DbError>(e)
                            ||| (walk is Err && e == DbError::BrokenChain)
                            ||| (walk matches Ok(ms) && !distinct_names(ms) && e
                                == DbError::BrokenChain)
                        },
                    }
                },
            },
    {
        let segment = match DataSgment::load_dir(files, initial) {
            Ok(s) => s,
            Err(e) => {
                return Err(e);
            },
        };
        Ok(RustDB { segment: Some(segment) })
    }

    /// A fresh database over a single new segment; the compactor starts
    /// its scratch database this way.
    fn new() -> (db: RustDB)
        ensures
            db.wf(),
            db.segment matches Some(s) && s.prev() is None,
            db.kv() == Map::<Seq<u8>, Seq<u8>>::empty(),
    {
        RustDB { segment: Some(DataSgment::new()) }
    }

    /// Walks the chain newest to oldest and returns the latest value
    /// stored for `key`; a tombstone, like an absent key, reads as `None`.
    pub fn get_record(&self, key: String) -> (r: Result<Option<KeyValue>, DbError>)
        requires
            self.wf(),
        ensures
            ({
                let kb = encode_utf8(key@);
                match r {
                    Ok(Some(kv)) => live_lookup(self.kv(), kb) == Some(kv.value@) && kv.key@ == kb,
                    Ok(None) => live_lookup(self.kv(), kb) is None,
                    Err(_) => false,
                }
            }),
    {
        match &self.segment {
            Some(value) => {
                let result = match RustDB::get_record_from_segment(key.as_str(), value) {
                    Ok(found) => found,
                    Err(err) => {
                        return Err(err);
                    },
                };
                if let Some(v) = &result {
                    if v.value.len() == 0 {
                        // the latest record is a tombstone: the key is dead,
                        // and older segments must not be consulted
                        return Ok(None);
                    }
                    return Ok(result);
                }
                Ok(None)
            },
            None => Ok(None),
        }
    }

    /// The first segment whose index knows `key` answers for the chain.
    fn get_record_from_segment(key: &str, segment: &DataSgment) -> (r: Result<
        Option<KeyValue>,
        DbError,
    >)
        requires
            segment.chain_wf(),
        ensures
            ({
                let kb = encode_utf8(key@);
                match r {
                    Ok(Some(kv)) => segment.chain_kv().contains_key(kb) && kv.key@ == kb
                        && kv.value@ == segment.chain_kv()[kb],
                    Ok(None) => !segment.chain_kv().contains_key(kb),
                    Err(_) => false,
                }
            }),
    {
        let key_bytes: Vec<u8> = vstd::slice::slice_to_vec(key.as_bytes());
        crate::store::chain_get_record(segment, &key_bytes)
    }

    /// Appends a tombstone for `key` to the active segment.
    pub fn delete_record(&mut self, key: String) -> (r: Result<(), DbError>)
        requires
            old(self).wf(),
            encode_utf8(key@).len() <= u32::MAX,
        ensures
            r is Ok,
            final(self).wf(),
            old(self).segment is None ==> *final(self) == *old(self),
            old(self).segment is Some ==> final(self).segment is Some
                && final(self).kv() == old(self).kv().insert(
                encode_utf8(key@),
                Seq::<u8>::empty(),
            ) && final(self).segment.unwrap().chain_names() == old(
                self,
            ).segment.unwrap().chain_names(),
    {
        match &mut self.segment {
            Some(value) => value.delete_record(key),
            None => Ok(()),
        }
    }

    /// Appends the record to the active segment; if the segment then
    /// stands past the size threshold, closes it and opens a fresh active
    /// segment in front of it.
    pub fn save_record(&mut self, key_value: KeyValue) -> (r: Result<(), DbError>)
        requires
            old(self).wf(),
            key_value.key@.len() <= u32::MAX,
            key_value.value@.len() <= u32::MAX,
        ensures
            r is Ok,
            final(self).wf(),
            old(self).segment is None ==> *final(self) == *old(self),
            old(self).segment is Some ==> {
                let active = old(self).segment.unwrap();
                let grown = active.spec_size() + frame_len(key_value.key@, key_value.value@);
                &&& final(self).segment is Some
                &&& final(self).kv() == old(self).kv().insert(key_value.key@, key_value.value@)
                &&& (grown <= MAX_SIZE_FILE ==> {
                    let s2 = final(self).segment.unwrap();
                    &&& s2.spec_name() == active.spec_name()
                    &&& s2.spec_size() == grown
                    &&& s2.chain_names() == active.chain_names()
                })
                &&& (grown > MAX_SIZE_FILE ==> {
                    let s2 = final(self).segment.unwrap();
                    ||| {
                        &&& s2.recs() == Seq::<Rec>::empty()
                        &&& s2.spec_size() == 16
                        &&& s2.prev() matches Some(p) && (*p).spec_closed() && (*p).spec_name()
                            == active.spec_name() && (*p).recs() == active.recs().push(
                            (key_value.key@, key_value.value@),
                        ) && (*p).spec_next() == Some(s2.spec_name())
                        &&& s2.chain_names() == seq![s2.spec_name()] + active.chain_names()
                        &&& !active.chain_names().contains(s2.spec_name())
                    }
                    ||| {
                        // every name is in use: the write stands, rotation waits
                        &&& active.chain_names().len() >= u64::MAX
                        &&& s2.spec_name() == active.spec_name()
                        &&& s2.chain_names() == active.chain_names()
                    }
                })
            },
    {
        let ghost k = key_value.key@;
        let ghost v = key_value.value@;
        let needs_rotation = match &mut self.segment {
            Some(value) => {
                let saved = value.save_record(key_value);
                match saved {
                    Ok(_) => {},
                    Err(err) => {
                        return Err(err);
                    },
                }
                value.get_size() > MAX_SIZE_FILE
            },
            None => {
                return Ok(());
            },
        };
        if needs_rotation {
            let current_segment = match self.segment.take() {
                Some(s) => s,
                None => {
                    return Ok(());
                },
            };
            let names = collect_chain_names(&current_segment);
            match fresh_name(&names) {
                None => {
                    self.segment = Some(current_segment);
                },
                Some(new_name) => {
                    let mut new_segment = DataSgment::with_name(new_name);
                    new_segment.set_previous(Some(current_segment));
                    self.segment = Some(new_segment);
                },
            }
        }
        Ok(())
    }

    /// The file names of every closed segment, newest first.
    pub fn get_closed_segment_names(&self) -> (r: Vec<String>)
        requires
            self.wf(),
        ensures
            match self.segment {
                None => r@.len() == 0,
                Some(s) => r@.len() == s.chain_names().len() - 1 && forall|i: int|
                    0 <= i < r@.len() ==> (#[trigger] r@[i])@ == hex_name(s.chain_names()[i + 1]),
            },
    {
        let mut result: Vec<String> = Vec::new();
        let seg = match &self.segment {
            Some(s) => s,
            None => {
                return result;
            },
        };
        if *seg.is_closed() {
            // under a well-formed database the head is the open active
            // segment, so nothing is pushed here
            result.push(seg.get_name());
        }
        let names = collect_chain_names(seg);
        let n = names.len();
        let mut i: usize = 1;
        while i < n
            invariant
                1 <= i <= n,
                n == names@.len(),
                result@.len() == i - 1,
                forall|j: int|
                    0 <= j < result@.len() ==> (#[trigger] result@[j])@ == hex_name(
                        names@[j + 1],
                    ),
            decreases n - i,
        {
            result.push(crate::names::parse_file_name(names[i]));
            i = i + 1;
        }
        result
    }

    /// The name of the segment currently taking writes.
    pub fn get_active_segment_name(&self) -> (r: u64)
        requires
            self.segment is Some,
        ensures
            r == self.segment.unwrap().spec_name(),
    {
        match &self.segment {
            Some(s) => {
                let names = collect_chain_names(s);
                proof {
                    crate::store::lemma_chain_names_head(self.segment.unwrap());
                }
                names[0]
            },
            None => 0,
        }
    }

    /// The name of the oldest live segment: what the directory's
    /// `initial_segment` marker names.
    pub fn get_initial_segment_name(&self) -> (r: u64)
        requires
            self.segment is Some,
        ensures
            r == self.segment.unwrap().chain_names().last(),
    {
        match &self.segment {
            Some(s) => oldest_name(s),
            None => 0,
        }
    }

    /// The bytes the `initial_segment` marker file must hold.
    pub fn get_initial_segment_reference(&self) -> (r: Vec<u8>)
        requires
            self.segment is Some,
        ensures
            r@ == spec_u64_to_be_bytes(self.segment.unwrap().chain_names().last()),
    {
        let name = self.get_initial_segment_name();
        let mut bytes: Vec<u8> = Vec::new();
        append_u64_be(&mut bytes, name);
        proof {
            assert(bytes@ =~= spec_u64_to_be_bytes(self.segment.unwrap().chain_names().last()));
        }
        bytes
    }

    /// Replaces the predecessor of the active segment — found by its name
    /// — with a freshly compacted chain.
    pub fn replace_segments(&mut self, replace_segment: u64, new_segment: DataSgment)
        requires
            old(self).wf(),
            old(self).segment matches Some(s) && s.spec_name() == replace_segment,
            new_segment.chain_wf(),
            new_segment.spec_closed(),
            new_segment.spec_next() == Some(replace_segment),
            !new_segment.chain_names().contains(replace_segment),
        ensures
            final(self).wf(),
            final(self).segment matches Some(s2) && {
                let s = old(self).segment.unwrap();
                &&& s2.spec_name() == s.spec_name()
                &&& s2.recs() == s.recs()
                &&& s2.spec_next() == s.spec_next()
                &&& !s2.spec_closed()
                &&& s2.chain_kv() == new_segment.chain_kv().union_prefer_right(s.kv())
                &&& s2.chain_names() == seq![s.spec_name()] + new_segment.chain_names()
                &&& s2.prev() matches Some(p) && (*p).spec_name() == new_segment.spec_name()
                    && (*p).recs() == new_segment.recs() && (*p).prev() == new_segment.prev()
                    && (*p).chain_kv() == new_segment.chain_kv()
            },
    {
        let mut active = match self.segment.take() {
            Some(s) => s,
            None => {
                return ;
            },
        };
        active.set_previous(Some(new_segment));
        self.segment = Some(active);
    }
}

pub struct LogCompressor {
    db: RustDB,
    closed_segments: Vec<Vec<u8>>,
    active_segment_name: u64,
}

impl LogCompressor {
    pub closed spec fn spec_closed_segments(self) -> Seq<Seq<u8>> {
        self.closed_segments.deep_view()
    }

    pub closed spec fn spec_active_name(self) -> u64 {
        self.active_segment_name
    }

    pub closed spec fn spec_db(self) -> RustDB {
        self.db
    }

    /// Ready to run: a fresh scratch database and a nonzero name for the
    /// segment the compacted chain will precede.
    pub open spec fn wf(self) -> bool {
        &&& self.spec_db().wf()
        &&& self.spec_db().segment is Some
        &&& self.spec_db().kv() == Map::<Seq<u8>, Seq<u8>>::empty()
        &&& self.spec_active_name() != 0
    }

    /// Takes the byte images of the closed segments, newest first, and the
    /// name of the active segment they precede.
    pub fn new(closed_segments: Vec<Vec<u8>>, active_segment_name: u64) -> (c: LogCompressor)
        requires
            active_segment_name != 0,
        ensures
            c.wf(),
            c.spec_closed_segments() == closed_segments.deep_view(),
            c.spec_active_name() == active_segment_name,
    {
        LogCompressor { db: RustDB::new(), closed_segments, active_segment_name }
    }

    /// Copies the latest record of every key of the closed segments —
    /// newest wins, tombstones travel too — into a fresh chain, then seals
    /// that chain as the predecessor of the active segment.
    #[verifier::rlimit(80)]
    pub fn compress(self) -> (r: Result<(u64, DataSgment), DbError>)
        requires
            self.wf(),
        ensures
            match r {
                Ok((active, seg)) => {
                    &&& active == self.spec_active_name()
                    &&& all_files_open(self.spec_closed_segments())
                    &&& seg.chain_wf()
                    &&& seg.spec_closed()
                    &&& seg.spec_next() == Some(active)
                    &&& !seg.chain_names().contains(active)
                    &&& seg.chain_kv() == combined_kv(self.spec_closed_segments())
                },
                Err(e) => (exists|i: int|
                    0 <= i < self.spec_closed_segments().len() && spec_open(
                        #[trigger] self.spec_closed_segments()[i],
                    ) is Err) || e == DbError::BrokenChain,
            },
    {
        let LogCompressor { mut db, closed_segments, active_segment_name } = self;
        let ghost filesv = closed_segments.deep_view();
        proof {
            assert(forall|j: int|
                0 <= j < closed_segments@.len() ==> filesv[j] == #[trigger] closed_segments@[j]@);
        }
        let n = closed_segments.len();
        let mut i: usize = 0;
        while i < n
            invariant
                i <= n,
                n == closed_segments@.len(),
                filesv == closed_segments.deep_view(),
                filesv == self.spec_closed_segments(),
                forall|j: int|
                    0 <= j < closed_segments@.len() ==> filesv[j] == #[trigger] closed_segments@[j]@,
                db.wf(),
                db.segment is Some,
                db.kv() == combined_kv_upto(filesv, i as int),
                forall|j: int| 0 <= j < i ==> spec_open(#[trigger] filesv[j]) is Ok,
            decreases n - i,
        {
            let data_segment = match DataSgment::open(clone_bytes(&closed_segments[i])) {
                Ok(s) => s,
                Err(e) => {
                    proof {
                        assert(spec_open(self.spec_closed_segments()[i as int]) is Err);
                    }
                    return Err(e);
                },
            };
            let keys = data_segment.keys();
            let ghost klist = data_segment.spec_key_list();
            let ghost db0 = db;
            let ghost si_kv = data_segment.kv();
            let m = keys.len();
            let mut j: usize = 0;
            while j < m
                invariant
                    j <= m,
                    m == keys@.len(),
                    m == klist.len(),
                    data_segment.seg_wf(),
                    si_kv == data_segment.kv(),
                    klist == data_segment.spec_key_list(),
                    forall|t: int| 0 <= t < m ==> (#[trigger] keys@[t])@ == klist[t],
                    db.wf(),
                    db.segment is Some,
                    db0.wf(),
                    db.kv() == si_kv.restrict(klist.take(j as int).to_set()).union_prefer_right(
                        db0.kv(),
                    ),
                decreases m - j,
            {
                let key = &keys[j];
                proof {
                    data_segment.lemma_key_list(j as int);
                }
                let ghost kq = klist[j as int];
                proof {
                    assert(key@ == kq);
                }
                let present = match &db.segment {
                    Some(s) => chain_has_key(s, key),
                    None => true,
                };
                let ghost db_before = db;
                if !present {
                    let found = match data_segment.get_record_bytes(key) {
                        Ok(Some(kv)) => kv,
                        Ok(None) => {
                            return Err(DbError::BrokenChain);
                        },
                        Err(e) => {
                            return Err(e);
                        },
                    };
                    proof {
                        crate::codec::lemma_index_frame(data_segment.recs(), kq);
                    }
                    let saved = db.save_record(found);
                    match saved {
                        Ok(_) => {},
                        Err(err) => {
                            return Err(err);
                        },
                    }
                }
                j = j + 1;
                proof {
                    let s_old = klist.take(j - 1).to_set();
                    let s_new = klist.take(j as int).to_set();
                    assert(klist.take(j as int) =~= klist.take(j - 1).push(kq));
                    Seq::lemma_to_set_insert_commutes(klist.take(j - 1), kq);
                    assert(klist.take(j - 1) + seq![kq] =~= klist.take(j as int));
                    assert(s_new =~= s_old.insert(kq));
                    let rhs_old = si_kv.restrict(s_old).union_prefer_right(db0.kv());
                    let rhs_new = si_kv.restrict(s_new).union_prefer_right(db0.kv());
                    if present {
                        if !db0.kv().contains_key(kq) {
                            assert(rhs_old.contains_key(kq));
                            assert(s_old.contains(kq));
                        }
                        assert(rhs_new =~= rhs_old);
                    } else {
                        assert(!rhs_old.contains_key(kq));
                        assert(!db0.kv().contains_key(kq));
                        assert(db.kv() == rhs_old.insert(kq, si_kv[kq]));
                        assert(rhs_new =~= rhs_old.insert(kq, si_kv[kq]));
                    }
                    assert(db.kv() =~= rhs_new);
                }
            }
            i = i + 1;
            proof {
                data_segment.lemma_key_list_complete();
                assert(klist.take(m as int) =~= klist);
                assert(si_kv.restrict(klist.to_set()) =~= si_kv);
                assert(db.kv() =~= combined_kv_upto(filesv, i as int));
            }
        }
        let mut current_segment = match db.segment.take() {
            Some(s) => s,
            None => {
                return Err(DbError::BrokenChain);
            },
        };
        if chain_contains(&current_segment, active_segment_name) {
            // a freshly drawn name collided with the live active segment:
            // leave everything as it was and let the next cycle retry
            return Err(DbError::BrokenChain);
        }
        current_segment.close_with_next(active_segment_name);
        proof {
            assert(combined_kv_upto(filesv, n as int) == combined_kv(filesv));
        }
        Ok((active_segment_name, current_segment))
    }
}


} // verus!
