//! The laws the engine obeys, stated over the spec functions its
//! contracts use: the chain's key map, the live-lookup reading of it, the
//! record codec and the on-disk images.

use vstd::prelude::*;

use crate::checksum::crc32_of;
use crate::codec::{
    frame_len, lemma_stream_replays, parse_frame_at, seg_kv, stream_bytes, ParseStep,
};
use crate::endian::{
    lemma_u32_be_round_trip, lemma_u64_be_round_trip, spec_u32_to_be_bytes, spec_u64_to_be_bytes,
};
use crate::error::DbError;
use crate::service::{combined_kv, combined_kv_upto, file_kv, live_lookup};
use crate::store::{
    file_matches, find_file, header_bytes, next_num, spec_chain, spec_open, DataSgment, SegModel,
};

verus! {

/// Round trip: a value stored for a key is what a later lookup of that
/// key returns, as long as the value is not empty.
pub proof fn lemma_round_trip(m: Map<Seq<u8>, Seq<u8>>, k: Seq<u8>, v: Seq<u8>)
    requires
        v.len() > 0,
    ensures
        live_lookup(m.insert(k, v), k) == Some(v),
{
}

/// Last writer wins: after two stores to one key, a lookup returns the
/// second value.
pub proof fn lemma_last_writer_wins(m: Map<Seq<u8>, Seq<u8>>, k: Seq<u8>, v1: Seq<u8>, v2: Seq<u8>)
    requires
        v2.len() > 0,
    ensures
        live_lookup(m.insert(k, v1).insert(k, v2), k) == Some(v2),
{
}

/// Delete visibility: a key whose latest record is a tombstone reads as
/// absent.
pub proof fn lemma_delete_hides(m: Map<Seq<u8>, Seq<u8>>, k: Seq<u8>)
    ensures
        live_lookup(m.insert(k, Seq::<u8>::empty()), k) is None,
{
}

/// A tombstone shadows history: when the newer layer of a chain holds a
/// tombstone for a key, the combined chain reads the key as absent,
/// whatever any older layer holds.
pub proof fn lemma_tombstone_shadows(
    older: Map<Seq<u8>, Seq<u8>>,
    newer: Map<Seq<u8>, Seq<u8>>,
    k: Seq<u8>,
)
    requires
        newer.contains_key(k),
        newer[k].len() == 0,
    ensures
        live_lookup(older.union_prefer_right(newer), k) is None,
{
}

/// Rotation preserves reads: linking a fresh, still-empty active segment
/// in front of a chain leaves the combined key map untouched.
pub proof fn lemma_rotation_preserves_reads(active: DataSgment)
    requires
        active.chain_wf(),
        active.kv() == Map::<Seq<u8>, Seq<u8>>::empty(),
        active.prev() is Some,
    ensures
        active.chain_kv() == (*active.prev().unwrap()).chain_kv(),
{
    let p = *active.prev().unwrap();
    assert(active.chain_kv() =~= p.chain_kv());
}

/// Restart equivalence for one segment: the byte image a well-formed
/// segment keeps on disk opens back to exactly its name, successor link
/// and records.
pub proof fn lemma_reopen(s: DataSgment)
    requires
        s.seg_wf(),
    ensures
        spec_open(s.file_bytes()) == Ok::<SegModel, DbError>(
            SegModel {
                name: s.spec_name(),
                next: next_num(s.spec_next()),
                records: s.recs(),
            },
        ),
{
    let data = s.file_bytes();
    let h = header_bytes(s.spec_name(), next_num(s.spec_next()));
    let sb = stream_bytes(s.recs());
    assert(data == h + sb);
    lemma_u64_be_round_trip(s.spec_name());
    lemma_u64_be_round_trip(next_num(s.spec_next()));
    assert forall|j: int| 0 <= j < 8 implies data.subrange(0, 8)[j] == spec_u64_to_be_bytes(
        s.spec_name(),
    )[j] by {
        assert(data[j] == h[j]);
        assert(data.subrange(0, 8)[j] == data[j]);
    }
    assert(data.subrange(0, 8) =~= spec_u64_to_be_bytes(s.spec_name()));
    assert forall|j: int| 0 <= j < 8 implies data.subrange(8, 16)[j] == spec_u64_to_be_bytes(
        next_num(s.spec_next()),
    )[j] by {
        assert(data[8 + j] == h[8 + j]);
        assert(data.subrange(8, 16)[j] == data[8 + j]);
    }
    assert(data.subrange(8, 16) =~= spec_u64_to_be_bytes(next_num(s.spec_next())));
    assert forall|j: int| 0 <= j < sb.len() implies data.subrange(16, data.len() as int)[j]
        == sb[j] by {
        assert(data[16 + j] == sb[j]);
        assert(data.subrange(16, data.len() as int)[j] == data[16 + j]);
    }
    assert(data.subrange(16, data.len() as int) =~= sb);
    lemma_stream_replays(data, 16, s.recs());
}

/// The byte images of a chain's files, newest first: what a caller that
/// persists the chain hands back at the next start, and what the
/// compactor reads.
pub open spec fn chain_files(s: DataSgment) -> Seq<Seq<u8>>
    decreases s.chain_models().len(),
{
    seq![s.file_bytes()] + (match s.prev() {
        None => Seq::<Seq<u8>>::empty(),
        Some(p) => chain_files(*p),
    })
}

proof fn lemma_combined_cons(f: Seq<u8>, fs: Seq<Seq<u8>>, k: int)
    requires
        0 <= k <= fs.len(),
    ensures
        combined_kv_upto(seq![f] + fs, k + 1) == combined_kv_upto(fs, k).union_prefer_right(
            file_kv(f),
        ),
    decreases k,
{
    let files = seq![f] + fs;
    if k == 0 {
        assert(files[0] == f);
        assert(combined_kv_upto(files, 0) == Map::<Seq<u8>, Seq<u8>>::empty());
        assert(combined_kv_upto(fs, 0) == Map::<Seq<u8>, Seq<u8>>::empty());
        assert(combined_kv_upto(files, 1) =~~= combined_kv_upto(fs, 0).union_prefer_right(
            file_kv(f),
        ));
    } else {
        lemma_combined_cons(f, fs, k - 1);
        assert(files[k] == fs[k - 1]);
        assert(combined_kv_upto(files, k + 1) =~~= combined_kv_upto(fs, k).union_prefer_right(
            file_kv(f),
        ));
    }
}

/// Compaction preserves state, part one: the combined key map of a
/// chain's files — newest wins, exactly the rule the compactor copies by
/// — is the chain's own key map.
pub proof fn lemma_chain_combined(s: DataSgment)
    requires
        s.chain_wf(),
    ensures
        combined_kv(chain_files(s)) == s.chain_kv(),
    decreases s.chain_models().len(),
{
    lemma_reopen(s);
    match s.prev() {
        None => {
            assert(chain_files(s).len() == 1);
            assert(chain_files(s)[0] == s.file_bytes());
            assert(combined_kv_upto(chain_files(s), 0) == Map::<Seq<u8>, Seq<u8>>::empty());
            assert(combined_kv(chain_files(s)) =~~= s.kv());
        },
        Some(p) => {
            assert((*p).chain_models().len() < s.chain_models().len());
            lemma_chain_combined(*p);
            let pf = chain_files(*p);
            assert(chain_files(s) == seq![s.file_bytes()] + pf);
            lemma_combined_cons(s.file_bytes(), pf, pf.len() as int);
            assert(combined_kv(chain_files(s)) =~~= (*p).chain_kv().union_prefer_right(s.kv()));
        },
    }
}

/// Compaction preserves state, part two: replacing the closed part of a
/// chain by the combined map of its files, under the untouched active
/// segment, changes no lookup.
pub proof fn lemma_compaction_preserves_reads(active: DataSgment, k: Seq<u8>)
    requires
        active.chain_wf(),
        active.prev() is Some,
    ensures
        live_lookup(
            combined_kv(chain_files(*active.prev().unwrap())).union_prefer_right(active.kv()),
            k,
        ) == live_lookup(active.chain_kv(), k),
{
    lemma_chain_combined(*active.prev().unwrap());
}

/// Checksum integrity, as far as the model reaches: a record frame whose
/// stored checksum is not the checksum of its key and value is reported
/// corrupt, with the position past the frame and both checksum values.
pub proof fn lemma_checksum_flip_detected(stored: u32, key: Seq<u8>, value: Seq<u8>)
    requires
        key.len() <= u32::MAX,
        value.len() <= u32::MAX,
        stored != crc32_of(key + value),
    ensures
        ({
            let data = spec_u32_to_be_bytes(stored) + spec_u32_to_be_bytes(key.len() as u32)
                + spec_u32_to_be_bytes(value.len() as u32) + key + value;
            parse_frame_at(data, 0) == (ParseStep::Corrupt {
                position: frame_len(key, value),
                expected: crc32_of(key + value),
                found: stored,
            })
        }),
{
    let pa = spec_u32_to_be_bytes(stored);
    let pb = spec_u32_to_be_bytes(key.len() as u32);
    let pc = spec_u32_to_be_bytes(value.len() as u32);
    let data = pa + pb + pc + key + value;
    let klen = key.len() as int;
    let vlen = value.len() as int;
    lemma_u32_be_round_trip(stored);
    lemma_u32_be_round_trip(key.len() as u32);
    lemma_u32_be_round_trip(value.len() as u32);
    assert(data.subrange(0, 4) =~= pa);
    assert(data.subrange(4, 8) =~= pb);
    assert(data.subrange(8, 12) =~= pc);
    assert(data.subrange(12, 12 + klen) =~= key);
    assert(data.subrange(12 + klen, 12 + klen + vlen) =~= value);
}

/// The `i`-th segment of a chain, newest first.
pub open spec fn chain_seg(s: DataSgment, i: int) -> DataSgment
    decreases i,
{
    if i <= 0 {
        s
    } else {
        match s.prev() {
            Some(p) => chain_seg(*p, i - 1),
            None => s,
        }
    }
}

proof fn lemma_chain_lens(s: DataSgment)
    ensures
        chain_files(s).len() == s.chain_models().len(),
        s.chain_models().len() >= 1,
    decreases s.chain_models().len(),
{
    match s.prev() {
        None => {},
        Some(p) => {
            lemma_chain_lens(*p);
        },
    }
}

proof fn lemma_chain_at(s: DataSgment, i: int)
    requires
        s.chain_wf(),
        0 <= i < s.chain_models().len(),
    ensures
        chain_seg(s, i).seg_wf(),
        chain_files(s).len() == s.chain_models().len(),
        chain_files(s)[i] == chain_seg(s, i).file_bytes(),
        s.chain_models()[i] == (SegModel {
            name: chain_seg(s, i).spec_name(),
            next: next_num(chain_seg(s, i).spec_next()),
            records: chain_seg(s, i).recs(),
        }),
    decreases i,
{
    lemma_chain_lens(s);
    if i > 0 {
        match s.prev() {
            Some(p) => {
                lemma_chain_at(*p, i - 1);
                assert(chain_files(s)[i] == chain_files(*p)[i - 1]);
                assert(s.chain_models()[i] == (*p).chain_models()[i - 1]);
            },
            None => {},
        }
    }
}

#[verifier::rlimit(60)]
#[verifier::spinoff_prover]
proof fn lemma_walk_from(s: DataSgment, i: int, fuel: nat)
    requires
        s.chain_wf(),
        s.spec_next() is None,
        0 <= i < s.chain_models().len(),
        fuel >= i + 1,
    ensures
        spec_chain(chain_files(s), s.chain_models()[i].name, fuel) == Ok::<Seq<SegModel>, DbError>(
            s.chain_models().subrange(0, i + 1).reverse(),
        ),
    decreases i,
{
    let files = chain_files(s);
    let ms = s.chain_models();
    lemma_chain_lens(s);
    lemma_chain_at(s, i);
    let t = chain_seg(s, i);
    lemma_reopen(t);
    crate::store::lemma_find_file(files, ms[i].name);
    assert(file_matches(files[i], ms[i].name));
    assert forall|j: int| 0 <= j < i implies !file_matches(#[trigger] files[j], ms[i].name) by {
        lemma_chain_at(s, j);
        lemma_reopen(chain_seg(s, j));
        crate::laws::lemma_chain_names_distinct(s, j, i);
        assert(s.chain_names()[j] == ms[j].name);
        assert(s.chain_names()[i] == ms[i].name);
    }
    let r = find_file(files, ms[i].name);
    assert(r == i) by {
        if r == -1 {
            assert(!file_matches(files[i], ms[i].name));
        } else if r < i {
            assert(!file_matches(files[r], ms[i].name));
        } else if r > i {
            assert(!file_matches(files[i], ms[i].name));
        }
    }
    assert(spec_open(files[i]) == Ok::<SegModel, DbError>(ms[i]));
    if i == 0 {
        assert(ms[0].next == 0);
        assert(ms.subrange(0, 1).reverse() =~= seq![ms[0]]);
    } else {
        lemma_chain_links(s, i - 1);
        lemma_chain_at(s, i - 1);
        assert(ms[i].next == ms[i - 1].name);
        assert(ms[i - 1].name != 0);
        lemma_walk_from(s, i - 1, (fuel - 1) as nat);
        assert(seq![ms[i]] + ms.subrange(0, i).reverse() =~= ms.subrange(0, i + 1).reverse());
    }
}

/// Restart equivalence, first half: the startup walk over the files a
/// well-formed database keeps on disk — from the name the
/// `initial_segment` marker holds, along the successor links — reads
/// back exactly the chain's segments, oldest first.
pub proof fn lemma_restart_walk(s: DataSgment, fuel: nat)
    requires
        s.chain_wf(),
        s.spec_next() is None,
        fuel >= s.chain_models().len(),
    ensures
        spec_chain(chain_files(s), s.chain_names().last(), fuel) == Ok::<Seq<SegModel>, DbError>(
            s.chain_models().reverse(),
        ),
{
    lemma_chain_lens(s);
    let n = s.chain_models().len() as int;
    assert(s.chain_names().last() == s.chain_models()[n - 1].name);
    lemma_walk_from(s, n - 1, fuel);
    assert(s.chain_models().subrange(0, n) =~= s.chain_models());
}

/// The key map a chain of segment models stands for, newest first.
pub open spec fn models_kv(ms: Seq<SegModel>) -> Map<Seq<u8>, Seq<u8>>
    decreases ms.len(),
{
    if ms.len() == 0 {
        Map::empty()
    } else {
        models_kv(ms.drop_first()).union_prefer_right(seg_kv(ms[0].records))
    }
}

proof fn lemma_chain_kv_models(s: DataSgment)
    ensures
        s.chain_kv() == models_kv(s.chain_models()),
    decreases s.chain_models().len(),
{
    match s.prev() {
        None => {
            assert(s.chain_models().drop_first() =~= Seq::<SegModel>::empty());
            assert(models_kv(Seq::<SegModel>::empty()) == Map::<Seq<u8>, Seq<u8>>::empty());
            assert(s.chain_models()[0].records == s.recs());
            assert(s.chain_kv() =~~= models_kv(s.chain_models()));
        },
        Some(p) => {
            lemma_chain_kv_models(*p);
            assert(s.chain_models().drop_first() =~= (*p).chain_models());
            assert(s.chain_models()[0].records == s.recs());
            assert(s.chain_models().len() >= 1);
            assert(models_kv(s.chain_models()) == models_kv(s.chain_models().drop_first()).union_prefer_right(
                seg_kv(s.chain_models()[0].records),
            ));
            assert(s.chain_kv() =~~= models_kv(s.chain_models()));
        },
    }
}

proof fn lemma_models_kv_correspond(a: Seq<SegModel>, b: Seq<SegModel>)
    requires
        crate::store::models_correspond(a, b),
    ensures
        models_kv(a) == models_kv(b),
    decreases a.len(),
{
    if a.len() == 0 {
        assert(models_kv(a) =~~= models_kv(b));
    } else {
        assert forall|i: int|
            #![trigger a.drop_first()[i]]
            0 <= i < a.drop_first().len() implies a.drop_first()[i].name == b.drop_first()[i].name
            && a.drop_first()[i].records == b.drop_first()[i].records by {
            assert(a[i + 1].name == b[i + 1].name && a[i + 1].records == b[i + 1].records);
        }
        lemma_models_kv_correspond(a.drop_first(), b.drop_first());
        assert(a[0].records == b[0].records);
        assert(models_kv(a) =~~= models_kv(b));
    }
}

/// Restart equivalence, second half: a freshly loaded chain whose closed
/// segments carry the same names and records as the rendered chain —
/// which is what the startup walk hands back — reads every
/// key exactly as the chain that was rendered did.
pub proof fn lemma_restart_preserves_reads(s: DataSgment, s2: DataSgment, k: Seq<u8>)
    requires
        crate::store::models_correspond(s2.chain_models().drop_first(), s.chain_models()),
        s2.kv() == Map::<Seq<u8>, Seq<u8>>::empty(),
        s2.prev() is Some,
    ensures
        s2.chain_kv() == s.chain_kv(),
        live_lookup(s2.chain_kv(), k) == live_lookup(s.chain_kv(), k),
{
    let p = *s2.prev().unwrap();
    assert(s2.chain_models().drop_first() =~= p.chain_models());
    lemma_chain_kv_models(p);
    lemma_chain_kv_models(s);
    lemma_models_kv_correspond(p.chain_models(), s.chain_models());
    assert(s2.chain_kv() =~~= p.chain_kv());
}

/// Chain well-formedness: every older segment's on-disk successor link
/// names the segment just newer than it.
pub proof fn lemma_chain_links(s: DataSgment, i: int)
    requires
        s.chain_wf(),
        0 <= i < s.chain_models().len() - 1,
    ensures
        s.chain_models()[i + 1].next == s.chain_models()[i].name,
    decreases s.chain_models().len(),
{
    match s.prev() {
        None => {},
        Some(p) => {
            if i == 0 {
                crate::store::lemma_chain_names_head(*p);
            } else {
                assert((*p).chain_models().len() < s.chain_models().len());
                lemma_chain_links(*p, i - 1);
            }
        },
    }
}

/// Chain well-formedness: no segment name repeats along a chain, so the
/// successor walk is linear and reaches the active head.
pub proof fn lemma_chain_names_distinct(s: DataSgment, i: int, j: int)
    requires
        s.chain_wf(),
        0 <= i < j < s.chain_names().len(),
    ensures
        s.chain_names()[i] != s.chain_names()[j],
    decreases s.chain_models().len(),
{
    crate::store::lemma_chain_names_head(s);
    match s.prev() {
        None => {},
        Some(p) => {
            if i == 0 {
                assert((*p).chain_names()[j - 1] == s.chain_names()[j]);
            } else {
                assert((*p).chain_models().len() < s.chain_models().len());
                lemma_chain_names_distinct(*p, i - 1, j - 1);
                assert((*p).chain_names()[i - 1] == s.chain_names()[i]);
                assert((*p).chain_names()[j - 1] == s.chain_names()[j]);
            }
        },
    }
}

} // verus!
