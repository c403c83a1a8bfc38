//! The record codec: the fixed frame `checksum | key_size | value_size |
//! key | value` written for every record, and its parser.
//!
//! All integers on disk are big-endian. A tombstone is a record whose value
//! is empty. A short read at the very start of a frame is a clean end of
//! stream; a short read mid-frame, and a checksum mismatch, are corruption.

use vstd::prelude::*;

use crate::checksum::{crc32, crc32_of};
use crate::endian::{append_u32_be, read_u32_be, spec_u32_from_be_bytes, spec_u32_to_be_bytes};
use crate::error::DbError;
use crate::kv::KeyValue;

verus! {

/// One record of a segment's record stream: its key bytes and value bytes.
pub type Rec = (Seq<u8>, Seq<u8>);

/// The key and the value of a record each fit their 32-bit size field.
pub open spec fn rec_fits(r: Rec) -> bool {
    r.0.len() <= u32::MAX && r.1.len() <= u32::MAX
}

pub open spec fn recs_fit(rs: Seq<Rec>) -> bool {
    forall|i: int| 0 <= i < rs.len() ==> #[trigger] rec_fits(rs[i])
}

/// The bytes of one record frame.
pub open spec fn frame_bytes(key: Seq<u8>, value: Seq<u8>) -> Seq<u8>
    recommends
        key.len() <= u32::MAX,
        value.len() <= u32::MAX,
{
    spec_u32_to_be_bytes(crc32_of(key + value)) + spec_u32_to_be_bytes(key.len() as u32)
        + spec_u32_to_be_bytes(value.len() as u32) + key + value
}

pub open spec fn frame_len(key: Seq<u8>, value: Seq<u8>) -> int {
    12 + key.len() as int + value.len() as int
}

/// The record region of a segment file: the frames of `rs`, in order.
pub open spec fn stream_bytes(rs: Seq<Rec>) -> Seq<u8>
    decreases rs.len(),
{
    if rs.len() == 0 {
        Seq::empty()
    } else {
        stream_bytes(rs.drop_last()) + frame_bytes(rs.last().0, rs.last().1)
    }
}

/// The latest value written for each key in `rs`; a tombstone keeps its
/// empty value here, and the layer above reads it as absence.
pub open spec fn seg_kv(rs: Seq<Rec>) -> Map<Seq<u8>, Seq<u8>>
    decreases rs.len(),
{
    if rs.len() == 0 {
        Map::empty()
    } else {
        seg_kv(rs.drop_last()).insert(rs.last().0, rs.last().1)
    }
}

/// The file offset of the latest record frame written for each key, with
/// records starting right after the 16-byte segment header.
pub open spec fn seg_index(rs: Seq<Rec>) -> Map<Seq<u8>, int>
    decreases rs.len(),
{
    if rs.len() == 0 {
        Map::empty()
    } else {
        seg_index(rs.drop_last()).insert(rs.last().0, 16 + stream_bytes(rs.drop_last()).len() as int)
    }
}

/// What one attempt to parse a record frame at `pos` yields.
pub enum ParseStep {
    Record { key: Seq<u8>, value: Seq<u8> },
    EndOfStream,
    Truncated { position: int },
    Corrupt { position: int, expected: u32, found: u32 },
}

pub open spec fn parse_frame_at(data: Seq<u8>, pos: int) -> ParseStep
    recommends
        0 <= pos <= data.len(),
{
    if pos == data.len() {
        ParseStep::EndOfStream
    } else if pos + 12 > data.len() {
        ParseStep::Truncated { position: pos }
    } else {
        let stored = spec_u32_from_be_bytes(data.subrange(pos, pos + 4));
        let ksize = spec_u32_from_be_bytes(data.subrange(pos + 4, pos + 8)) as int;
        let vsize = spec_u32_from_be_bytes(data.subrange(pos + 8, pos + 12)) as int;
        if pos + 12 + ksize + vsize > data.len() {
            ParseStep::Truncated { position: pos }
        } else {
            let key = data.subrange(pos + 12, pos + 12 + ksize);
            let value = data.subrange(pos + 12 + ksize, pos + 12 + ksize + vsize);
            let computed = crc32_of(key + value);
            if stored != computed {
                ParseStep::Corrupt {
                    position: pos + 12 + ksize + vsize,
                    expected: computed,
                    found: stored,
                }
            } else {
                ParseStep::Record { key, value }
            }
        }
    }
}

/// The records read by replaying frames from `pos` to the end of `data`,
/// or the error met on the way.
pub open spec fn replay(data: Seq<u8>, pos: int) -> Result<Seq<Rec>, DbError>
    recommends
        0 <= pos <= data.len(),
    decreases data.len() - pos,
{
    match parse_frame_at(data, pos) {
        ParseStep::EndOfStream => Ok(Seq::empty()),
        ParseStep::Record { key, value } => if pos + frame_len(key, value) <= data.len() {
            match replay(data, pos + frame_len(key, value)) {
                Ok(rest) => Ok(seq![(key, value)] + rest),
                Err(e) => Err(e),
            }
        } else {
            // parse_frame_at never returns a record that overruns `data`
            Err(DbError::TruncatedRecord { position: pos as u64 })
        },
        ParseStep::Truncated { position } => Err(
            DbError::TruncatedRecord { position: position as u64 },
        ),
        ParseStep::Corrupt { position, expected, found } => Err(
            DbError::CorruptRecord { position: position as u64, expected, found },
        ),
    }
}

/// Appends the frame of `(key, value)` to `data` and returns the frame's
/// size in bytes.
pub fn write_record(data: &mut Vec<u8>, key: &Vec<u8>, value: &Vec<u8>) -> (n: u64)
    requires
        key@.len() <= u32::MAX,
        value@.len() <= u32::MAX,
    ensures
        final(data)@ == old(data)@ + frame_bytes(key@, value@),
        n == frame_len(key@, value@),
{
    let mut payload: Vec<u8> = Vec::new();
    payload.extend_from_slice(key.as_slice());
    payload.extend_from_slice(value.as_slice());
    assert(payload@ == key@ + value@);
    let checksum = crc32(&payload);
    append_u32_be(data, checksum);
    append_u32_be(data, key.len() as u32);
    append_u32_be(data, value.len() as u32);
    data.extend_from_slice(key.as_slice());
    data.extend_from_slice(value.as_slice());
    proof {
        assert(data@ =~= old(data)@ + frame_bytes(key@, value@));
    }
    12 + key.len() as u64 + value.len() as u64
}

/// Parses the record frame at `pos`, recomputes its checksum, and returns
/// the record, the end-of-stream marker, or the corruption found there.
pub fn read_record(data: &Vec<u8>, pos: u64) -> (r: Result<KeyValue, DbError>)
    requires
        pos <= data@.len(),
    ensures
        match parse_frame_at(data@, pos as int) {
            ParseStep::Record { key, value } => r matches Ok(kv) && kv.key@ == key && kv.value@
                == value,
            ParseStep::EndOfStream => r == Err::<KeyValue, DbError>(DbError::EndOfStream),
            ParseStep::Truncated { position } => r == Err::<KeyValue, DbError>(
                DbError::TruncatedRecord { position: position as u64 },
            ),
            ParseStep::Corrupt { position, expected, found } => r == Err::<KeyValue, DbError>(
                DbError::CorruptRecord { position: position as u64, expected, found },
            ),
        },
{
    let len: u64 = data.len() as u64;
    if pos == len {
        return Err(DbError::EndOfStream);
    }
    if len - pos < 12 {
        return Err(DbError::TruncatedRecord { position: pos });
    }
    let p = pos as usize;
    let stored = read_u32_be(data, p);
    let ksize = read_u32_be(data, p + 4);
    let vsize = read_u32_be(data, p + 8);
    if len - pos - 12 < ksize as u64 + vsize as u64 {
        return Err(DbError::TruncatedRecord { position: pos });
    }
    let kstart = p + 12;
    let kend = kstart + ksize as usize;
    let vend = kend + vsize as usize;
    let key: Vec<u8> = vstd::slice::slice_to_vec(vstd::slice::slice_subrange(
        data.as_slice(),
        kstart,
        kend,
    ));
    let value: Vec<u8> = vstd::slice::slice_to_vec(vstd::slice::slice_subrange(
        data.as_slice(),
        kend,
        vend,
    ));
    let mut payload: Vec<u8> = Vec::new();
    payload.extend_from_slice(key.as_slice());
    payload.extend_from_slice(value.as_slice());
    assert(payload@ == key@ + value@);
    let computed = crc32(&payload);
    if stored != computed {
        return Err(DbError::CorruptRecord {
            position: pos + 12 + ksize as u64 + vsize as u64,
            expected: computed,
            found: stored,
        });
    }
    Ok(KeyValue::new(key, value))
}

pub proof fn lemma_recs_fit_drop_last(rs: Seq<Rec>)
    requires
        rs.len() > 0,
        recs_fit(rs),
    ensures
        recs_fit(rs.drop_last()),
{
    assert forall|i: int| 0 <= i < rs.drop_last().len() implies #[trigger] rec_fits(
        rs.drop_last()[i],
    ) by {
        assert(rs.drop_last()[i] == rs[i]);
        assert(rec_fits(rs[i]));
    }
}

pub proof fn lemma_recs_fit_drop_first(rs: Seq<Rec>)
    requires
        rs.len() > 0,
        recs_fit(rs),
    ensures
        recs_fit(rs.drop_first()),
{
    assert forall|i: int| 0 <= i < rs.drop_first().len() implies #[trigger] rec_fits(
        rs.drop_first()[i],
    ) by {
        assert(rs.drop_first()[i] == rs[i + 1]);
        assert(rec_fits(rs[i + 1]));
    }
}

/// The keys that have an indexed offset are exactly the keys that hold a
/// value in the segment.
pub proof fn lemma_seg_dom(rs: Seq<Rec>)
    ensures
        seg_index(rs).dom() == seg_kv(rs).dom(),
    decreases rs.len(),
{
    if rs.len() == 0 {
        assert(seg_index(rs).dom() =~= seg_kv(rs).dom());
    } else {
        lemma_seg_dom(rs.drop_last());
        assert(seg_index(rs).dom() =~= seg_kv(rs).dom());
    }
}

/// Appending one record extends the stream by one frame and updates the
/// key's entry in both per-segment maps.
pub proof fn lemma_stream_push(rs: Seq<Rec>, k: Seq<u8>, v: Seq<u8>)
    ensures
        stream_bytes(rs.push((k, v))) == stream_bytes(rs) + frame_bytes(k, v),
        seg_kv(rs.push((k, v))) == seg_kv(rs).insert(k, v),
        seg_index(rs.push((k, v))) == seg_index(rs).insert(k, 16 + stream_bytes(rs).len() as int),
{
    let rs2 = rs.push((k, v));
    assert(rs2.drop_last() =~= rs);
    assert(rs2.last() == (k, v));
}

/// A frame laid down in `data` parses back to its record.
pub proof fn lemma_parse_frame(data: Seq<u8>, pos: int, key: Seq<u8>, value: Seq<u8>)
    requires
        0 <= pos,
        key.len() <= u32::MAX,
        value.len() <= u32::MAX,
        pos + frame_len(key, value) <= data.len(),
        data.subrange(pos, pos + frame_len(key, value)) == frame_bytes(key, value),
    ensures
        parse_frame_at(data, pos) == (ParseStep::Record { key, value }),
{
    let fl = frame_len(key, value);
    let f = frame_bytes(key, value);
    let crc = crc32_of(key + value);
    let klen = key.len() as int;
    let vlen = value.len() as int;
    let pa = spec_u32_to_be_bytes(crc);
    let pb = spec_u32_to_be_bytes(key.len() as u32);
    let pc = spec_u32_to_be_bytes(value.len() as u32);
    assert(f.len() == fl);
    assert forall|j: int| 0 <= j < 4 implies data.subrange(pos, pos + 4)[j] == pa[j] by {
        assert(data.subrange(pos, pos + fl)[j] == data[pos + j]);
        assert(f[j] == pa[j]);
        assert(data.subrange(pos, pos + 4)[j] == data[pos + j]);
    }
    assert(data.subrange(pos, pos + 4) =~= pa);
    assert forall|j: int| 0 <= j < 4 implies data.subrange(pos + 4, pos + 8)[j] == pb[j] by {
        assert(data.subrange(pos, pos + fl)[4 + j] == data[pos + 4 + j]);
        assert(f[4 + j] == pb[j]);
        assert(data.subrange(pos + 4, pos + 8)[j] == data[pos + 4 + j]);
    }
    assert(data.subrange(pos + 4, pos + 8) =~= pb);
    assert forall|j: int| 0 <= j < 4 implies data.subrange(pos + 8, pos + 12)[j] == pc[j] by {
        assert(data.subrange(pos, pos + fl)[8 + j] == data[pos + 8 + j]);
        assert(f[8 + j] == pc[j]);
        assert(data.subrange(pos + 8, pos + 12)[j] == data[pos + 8 + j]);
    }
    assert(data.subrange(pos + 8, pos + 12) =~= pc);
    assert forall|j: int| 0 <= j < klen implies data.subrange(pos + 12, pos + 12 + klen)[j]
        == key[j] by {
        assert(data.subrange(pos, pos + fl)[12 + j] == data[pos + 12 + j]);
        assert(f[12 + j] == key[j]);
        assert(data.subrange(pos + 12, pos + 12 + klen)[j] == data[pos + 12 + j]);
    }
    assert(data.subrange(pos + 12, pos + 12 + klen) =~= key);
    assert forall|j: int| 0 <= j < vlen implies data.subrange(
        pos + 12 + klen,
        pos + 12 + klen + vlen,
    )[j] == value[j] by {
        assert(data.subrange(pos, pos + fl)[12 + klen + j] == data[pos + 12 + klen + j]);
        assert(f[12 + klen + j] == value[j]);
        assert(data.subrange(pos + 12 + klen, pos + 12 + klen + vlen)[j] == data[pos + 12 + klen
            + j]);
    }
    assert(data.subrange(pos + 12 + klen, pos + 12 + klen + vlen) =~= value);
    crate::endian::lemma_u32_be_round_trip(crc);
    crate::endian::lemma_u32_be_round_trip(key.len() as u32);
    crate::endian::lemma_u32_be_round_trip(value.len() as u32);
}

/// A frame that parses as a record stands in `data` as exactly the frame
/// of that record.
pub proof fn lemma_record_frame_bytes(data: Seq<u8>, pos: int)
    requires
        0 <= pos <= data.len(),
        parse_frame_at(data, pos) is Record,
    ensures
        ({
            let step = parse_frame_at(data, pos);
            match step {
                ParseStep::Record { key, value } => {
                    &&& rec_fits((key, value))
                    &&& pos + frame_len(key, value) <= data.len()
                    &&& data.subrange(pos, pos + frame_len(key, value)) == frame_bytes(key, value)
                },
                _ => true,
            }
        }),
{
    let stored = spec_u32_from_be_bytes(data.subrange(pos, pos + 4));
    let ksize = spec_u32_from_be_bytes(data.subrange(pos + 4, pos + 8)) as int;
    let vsize = spec_u32_from_be_bytes(data.subrange(pos + 8, pos + 12)) as int;
    let key = data.subrange(pos + 12, pos + 12 + ksize);
    let value = data.subrange(pos + 12 + ksize, pos + 12 + ksize + vsize);
    let fl = frame_len(key, value);
    let crc = crc32_of(key + value);
    crate::endian::lemma_u32_be_bytes_injective(data.subrange(pos, pos + 4));
    crate::endian::lemma_u32_be_bytes_injective(data.subrange(pos + 4, pos + 8));
    crate::endian::lemma_u32_be_bytes_injective(data.subrange(pos + 8, pos + 12));
    assert(stored == crc);
    assert(key.len() == ksize && value.len() == vsize);
    assert(spec_u32_to_be_bytes(crc) == data.subrange(pos, pos + 4));
    assert(key.len() as u32 == spec_u32_from_be_bytes(data.subrange(pos + 4, pos + 8)));
    assert(spec_u32_to_be_bytes(key.len() as u32) == data.subrange(pos + 4, pos + 8));
    assert(value.len() as u32 == spec_u32_from_be_bytes(data.subrange(pos + 8, pos + 12)));
    assert(spec_u32_to_be_bytes(value.len() as u32) == data.subrange(pos + 8, pos + 12));
    assert forall|j: int| 0 <= j < fl implies data.subrange(pos, pos + fl)[j] == frame_bytes(
        key,
        value,
    )[j] by {
        assert(data.subrange(pos, pos + fl)[j] == data[pos + j]);
        if j < 4 {
            assert(data.subrange(pos, pos + 4)[j] == data[pos + j]);
            assert(frame_bytes(key, value)[j] == spec_u32_to_be_bytes(crc)[j]);
        } else if j < 8 {
            assert(data.subrange(pos + 4, pos + 8)[j - 4] == data[pos + j]);
            assert(frame_bytes(key, value)[j] == spec_u32_to_be_bytes(key.len() as u32)[j - 4]);
        } else if j < 12 {
            assert(data.subrange(pos + 8, pos + 12)[j - 8] == data[pos + j]);
            assert(frame_bytes(key, value)[j] == spec_u32_to_be_bytes(value.len() as u32)[j - 8]);
        } else if j < 12 + ksize {
            assert(key[j - 12] == data[pos + j]);
            assert(frame_bytes(key, value)[j] == key[j - 12]);
        } else {
            assert(value[j - 12 - ksize] == data[pos + j]);
            assert(frame_bytes(key, value)[j] == value[j - 12 - ksize]);
        }
    }
    assert(data.subrange(pos, pos + fl) =~= frame_bytes(key, value));
}

/// The record region of `rs` begins with the frame of its first record.
pub proof fn lemma_stream_bytes_first(rs: Seq<Rec>)
    requires
        rs.len() > 0,
    ensures
        stream_bytes(rs) == frame_bytes(rs[0].0, rs[0].1) + stream_bytes(rs.drop_first()),
    decreases rs.len(),
{
    if rs.len() == 1 {
        assert(rs.drop_last() =~= Seq::<Rec>::empty());
        assert(rs.drop_first() =~= Seq::<Rec>::empty());
        assert(rs.last() == rs[0]);
        assert(stream_bytes(rs) =~= frame_bytes(rs[0].0, rs[0].1) + stream_bytes(rs.drop_first()));
    } else {
        let t = rs.drop_last();
        lemma_stream_bytes_first(t);
        assert(t[0] == rs[0]);
        assert(t.drop_first() =~= rs.drop_first().drop_last());
        assert(rs.drop_first().last() == rs.last());
        assert(rs.drop_first().len() > 0);
        assert(stream_bytes(rs) =~= frame_bytes(rs[0].0, rs[0].1) + stream_bytes(rs.drop_first()));
    }
}

/// Replaying a rendered record stream reads back exactly its records.
pub proof fn lemma_stream_replays(data: Seq<u8>, pos: int, rs: Seq<Rec>)
    requires
        recs_fit(rs),
        0 <= pos <= data.len(),
        data.len() == pos + stream_bytes(rs).len(),
        data.subrange(pos, data.len() as int) == stream_bytes(rs),
    ensures
        replay(data, pos) == Ok::<Seq<Rec>, DbError>(rs),
    decreases rs.len(),
{
    if rs.len() == 0 {
        assert(stream_bytes(rs).len() == 0);
        assert(pos == data.len());
        assert(rs =~= Seq::<Rec>::empty());
    } else {
        lemma_stream_bytes_first(rs);
        let k = rs[0].0;
        let v = rs[0].1;
        let fl = frame_len(k, v);
        let sb = stream_bytes(rs);
        let rest = stream_bytes(rs.drop_first());
        assert(rec_fits(rs[0]));
        assert(sb == frame_bytes(k, v) + rest);
        assert forall|j: int| 0 <= j < fl implies data.subrange(pos, pos + fl)[j] == frame_bytes(
            k,
            v,
        )[j] by {
            assert(data.subrange(pos, data.len() as int)[j] == data[pos + j]);
            assert(sb[j] == frame_bytes(k, v)[j]);
            assert(data.subrange(pos, pos + fl)[j] == data[pos + j]);
        }
        assert(data.subrange(pos, pos + fl) =~= frame_bytes(k, v));
        lemma_parse_frame(data, pos, k, v);
        assert forall|j: int| 0 <= j < rest.len() implies data.subrange(
            pos + fl,
            data.len() as int,
        )[j] == rest[j] by {
            assert(data.subrange(pos, data.len() as int)[fl + j] == data[pos + fl + j]);
            assert(sb[fl + j] == rest[j]);
            assert(data.subrange(pos + fl, data.len() as int)[j] == data[pos + fl + j]);
        }
        assert(data.subrange(pos + fl, data.len() as int) =~= rest);
        lemma_recs_fit_drop_first(rs);
        lemma_stream_replays(data, pos + fl, rs.drop_first());
        assert(parse_frame_at(data, pos) == (ParseStep::Record { key: k, value: v }));
        assert(replay(data, pos) == Ok::<Seq<Rec>, DbError>(seq![(k, v)] + rs.drop_first()));
        assert(seq![(k, v)] + rs.drop_first() =~= rs);
    }
}

/// The index of a well-formed record stream points each key at the frame
/// of its latest record.
pub proof fn lemma_index_frame(rs: Seq<Rec>, k: Seq<u8>)
    requires
        recs_fit(rs),
        seg_kv(rs).dom().contains(k),
    ensures
        seg_index(rs).dom().contains(k),
        k.len() <= u32::MAX,
        seg_kv(rs)[k].len() <= u32::MAX,
        16 <= seg_index(rs)[k],
        seg_index(rs)[k] + frame_len(k, seg_kv(rs)[k]) <= 16 + stream_bytes(rs).len(),
        stream_bytes(rs).subrange(
            seg_index(rs)[k] - 16,
            seg_index(rs)[k] - 16 + frame_len(k, seg_kv(rs)[k]),
        ) == frame_bytes(k, seg_kv(rs)[k]),
    decreases rs.len(),
{
    let t = rs.drop_last();
    if rs.last().0 == k {
        assert(rec_fits(rs[rs.len() - 1]));
        assert(seg_index(rs)[k] == 16 + stream_bytes(t).len());
        assert(seg_kv(rs)[k] == rs.last().1);
        assert(stream_bytes(rs) == stream_bytes(t) + frame_bytes(rs.last().0, rs.last().1));
        assert(stream_bytes(rs).subrange(
            stream_bytes(t).len() as int,
            stream_bytes(t).len() + frame_len(k, seg_kv(rs)[k]),
        ) =~= frame_bytes(k, seg_kv(rs)[k]));
    } else {
        assert(seg_kv(t).dom().contains(k));
        lemma_recs_fit_drop_last(rs);
        lemma_index_frame(t, k);
        assert(seg_index(rs)[k] == seg_index(t)[k]);
        assert(seg_kv(rs)[k] == seg_kv(t)[k]);
        let off = seg_index(t)[k] - 16;
        let fl = frame_len(k, seg_kv(t)[k]);
        assert(stream_bytes(rs) == stream_bytes(t) + frame_bytes(rs.last().0, rs.last().1));
        assert(stream_bytes(rs).subrange(off, off + fl) =~= stream_bytes(t).subrange(off, off + fl));
    }
}

} // verus!
