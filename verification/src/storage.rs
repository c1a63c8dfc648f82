//! Content-addressed chunk storage: chunk payloads keyed by `(hash, index)`
//! and per-hash chunk-count metadata, with completeness auditing and
//! reassembly.

use vstd::prelude::*;
use crate::digest::{content_digest, digest_of, hex_of, hex_str};
use crate::error::ProtocolError;
use crate::util::str_eq;
use crate::CHUNK_SIZE;

verus! {

struct ChunkRecord {
    hash: String,
    index: u32,
    data: Vec<u8>,
}

struct MetaRecord {
    hash: String,
    num_chunks: u32,
}

/// Ghost model of the store: chunk payloads keyed by `(hash, index)` and the
/// expected chunk count keyed by hash.
pub struct StoreModel {
    pub chunks: Map<(Seq<char>, int), Seq<u8>>,
    pub metas: Map<Seq<char>, u32>,
}

spec fn chunk_key(r: ChunkRecord) -> (Seq<char>, int) {
    (r.hash@, r.index as int)
}

spec fn chunks_map(s: Seq<ChunkRecord>) -> Map<(Seq<char>, int), Seq<u8>>
    decreases s.len(),
{
    if s.len() == 0 {
        Map::empty()
    } else {
        chunks_map(s.drop_last()).insert(chunk_key(s.last()), s.last().data@)
    }
}

spec fn metas_map(s: Seq<MetaRecord>) -> Map<Seq<char>, u32>
    decreases s.len(),
{
    if s.len() == 0 {
        Map::empty()
    } else {
        metas_map(s.drop_last()).insert(s.last().hash@, s.last().num_chunks)
    }
}

spec fn chunk_keys_distinct(s: Seq<ChunkRecord>) -> bool {
    forall|i: int, j: int|
        0 <= i < j < s.len() ==> chunk_key(#[trigger] s[i]) != chunk_key(#[trigger] s[j])
}

spec fn meta_keys_distinct(s: Seq<MetaRecord>) -> bool {
    forall|i: int, j: int|
        0 <= i < j < s.len() ==> (#[trigger] s[i]).hash@ != (#[trigger] s[j]).hash@
}

proof fn lemma_chunks_map_contains(s: Seq<ChunkRecord>, k: (Seq<char>, int))
    ensures
        chunks_map(s).contains_key(k) <==> exists|j: int|
            0 <= j < s.len() && chunk_key(#[trigger] s[j]) == k,
    decreases s.len(),
{
    if s.len() > 0 {
        lemma_chunks_map_contains(s.drop_last(), k);
        if chunk_key(s.last()) == k {
            assert(chunk_key(s[s.len() - 1]) == k);
        } else {
            if exists|j: int| 0 <= j < s.len() && chunk_key(#[trigger] s[j]) == k {
                let j = choose|j: int| 0 <= j < s.len() && chunk_key(#[trigger] s[j]) == k;
                assert(j < s.len() - 1);
                assert(chunk_key(s.drop_last()[j]) == k);
            }
        }
    }
}

proof fn lemma_chunks_map_value(s: Seq<ChunkRecord>, j: int)
    requires
        chunk_keys_distinct(s),
        0 <= j < s.len(),
    ensures
        chunks_map(s).contains_key(chunk_key(s[j])),
        chunks_map(s)[chunk_key(s[j])] == s[j].data@,
    decreases s.len(),
{
    if j < s.len() - 1 {
        lemma_chunks_map_value(s.drop_last(), j);
        assert(s.drop_last()[j] == s[j]);
        assert(chunk_key(s[j]) != chunk_key(s[s.len() - 1]));
    }
}

proof fn lemma_metas_map_contains(s: Seq<MetaRecord>, h: Seq<char>)
    ensures
        metas_map(s).contains_key(h) <==> exists|j: int|
            0 <= j < s.len() && (#[trigger] s[j]).hash@ == h,
    decreases s.len(),
{
    if s.len() > 0 {
        lemma_metas_map_contains(s.drop_last(), h);
        if s.last().hash@ == h {
            assert(s[s.len() - 1].hash@ == h);
        } else {
            if exists|j: int| 0 <= j < s.len() && (#[trigger] s[j]).hash@ == h {
                let j = choose|j: int| 0 <= j < s.len() && (#[trigger] s[j]).hash@ == h;
                assert(j < s.len() - 1);
                assert(s.drop_last()[j].hash@ == h);
            }
        }
    }
}

proof fn lemma_metas_map_value(s: Seq<MetaRecord>, j: int)
    requires
        meta_keys_distinct(s),
        0 <= j < s.len(),
    ensures
        metas_map(s).contains_key(s[j].hash@),
        metas_map(s)[s[j].hash@] == s[j].num_chunks,
    decreases s.len(),
{
    if j < s.len() - 1 {
        lemma_metas_map_value(s.drop_last(), j);
        assert(s.drop_last()[j] == s[j]);
    }
}

proof fn lemma_chunks_map_update(s: Seq<ChunkRecord>, j: int, r: ChunkRecord)
    requires
        chunk_keys_distinct(s),
        0 <= j < s.len(),
        chunk_key(r) == chunk_key(s[j]),
    ensures
        chunks_map(s.update(j, r)) == chunks_map(s).insert(chunk_key(r), r.data@),
        chunk_keys_distinct(s.update(j, r)),
    decreases s.len(),
{
    let t = s.update(j, r);
    assert(forall|i: int| 0 <= i < s.len() && i != j ==> t[i] == s[i]);
    if j == s.len() - 1 {
        assert(t.drop_last() =~= s.drop_last());
        assert(t.last() == r);
        assert(chunks_map(s).insert(chunk_key(r), r.data@) =~= chunks_map(s.drop_last()).insert(
            chunk_key(r),
            r.data@,
        ));
    } else {
        assert(t.drop_last() =~= s.drop_last().update(j, r));
        assert(s.drop_last()[j] == s[j]);
        lemma_chunks_map_update(s.drop_last(), j, r);
        assert(t.last() == s.last());
        assert(chunk_key(r) != chunk_key(s.last()));
        assert(chunks_map(t) == chunks_map(s.drop_last()).insert(chunk_key(r), r.data@).insert(
            chunk_key(s.last()),
            s.last().data@,
        ));
        assert(chunks_map(s.drop_last()).insert(chunk_key(r), r.data@).insert(
            chunk_key(s.last()),
            s.last().data@,
        ) =~= chunks_map(s).insert(chunk_key(r), r.data@));
    }
}

proof fn lemma_metas_map_update(s: Seq<MetaRecord>, j: int, r: MetaRecord)
    requires
        meta_keys_distinct(s),
        0 <= j < s.len(),
        r.hash@ == s[j].hash@,
    ensures
        metas_map(s.update(j, r)) == metas_map(s).insert(r.hash@, r.num_chunks),
        meta_keys_distinct(s.update(j, r)),
    decreases s.len(),
{
    let t = s.update(j, r);
    assert(forall|i: int| 0 <= i < s.len() && i != j ==> t[i] == s[i]);
    if j == s.len() - 1 {
        assert(t.drop_last() =~= s.drop_last());
        assert(t.last() == r);
        assert(metas_map(s).insert(r.hash@, r.num_chunks) =~= metas_map(s.drop_last()).insert(
            r.hash@,
            r.num_chunks,
        ));
    } else {
        assert(t.drop_last() =~= s.drop_last().update(j, r));
        assert(s.drop_last()[j] == s[j]);
        lemma_metas_map_update(s.drop_last(), j, r);
        assert(t.last() == s.last());
        assert(r.hash@ != s.last().hash@);
        assert(metas_map(t) == metas_map(s.drop_last()).insert(r.hash@, r.num_chunks).insert(
            s.last().hash@,
            s.last().num_chunks,
        ));
        assert(metas_map(s.drop_last()).insert(r.hash@, r.num_chunks).insert(
            s.last().hash@,
            s.last().num_chunks,
        ) =~= metas_map(s).insert(r.hash@, r.num_chunks));
    }
}

proof fn lemma_chunks_map_push(s: Seq<ChunkRecord>, r: ChunkRecord)
    requires
        chunk_keys_distinct(s),
        forall|j: int| 0 <= j < s.len() ==> chunk_key(#[trigger] s[j]) != chunk_key(r),
    ensures
        chunks_map(s.push(r)) == chunks_map(s).insert(chunk_key(r), r.data@),
        chunk_keys_distinct(s.push(r)),
{
    assert(s.push(r).drop_last() =~= s);
    assert(s.push(r).last() == r);
    assert(forall|i: int| 0 <= i < s.len() ==> s.push(r)[i] == s[i]);
}

proof fn lemma_metas_map_push(s: Seq<MetaRecord>, r: MetaRecord)
    requires
        meta_keys_distinct(s),
        forall|j: int| 0 <= j < s.len() ==> (#[trigger] s[j]).hash@ != r.hash@,
    ensures
        metas_map(s.push(r)) == metas_map(s).insert(r.hash@, r.num_chunks),
        meta_keys_distinct(s.push(r)),
{
    assert(s.push(r).drop_last() =~= s);
    assert(s.push(r).last() == r);
    assert(forall|i: int| 0 <= i < s.len() ==> s.push(r)[i] == s[i]);
}

/// Durable, content-addressed storage for file chunks and their metadata.
///
/// Chunks are keyed by `(hash, index)`; a second store under the same key
/// fully replaces the first. Metadata records the expected chunk count for a
/// hash and is replaced whole, so a reader sees either the previous count or
/// the new one, never a blend.
pub struct ChunkStore {
    chunks: Vec<ChunkRecord>,
    metas: Vec<MetaRecord>,
}

impl View for ChunkStore {
    type V = StoreModel;

    closed spec fn view(&self) -> StoreModel {
        StoreModel { chunks: chunks_map(self.chunks@), metas: metas_map(self.metas@) }
    }
}

impl ChunkStore {
    /// The store's records carry no two equal keys, so each key denotes one
    /// payload.
    pub closed spec fn wf(self) -> bool {
        chunk_keys_distinct(self.chunks@) && meta_keys_distinct(self.metas@)
    }

    /// Creates an empty store.
    pub fn new() -> (s: ChunkStore)
        ensures
            s.wf(),
            s@.chunks == Map::<(Seq<char>, int), Seq<u8>>::empty(),
            s@.metas == Map::<Seq<char>, u32>::empty(),
    {
        ChunkStore { chunks: Vec::new(), metas: Vec::new() }
    }

    fn find_chunk(&self, hash: &str, index: u32) -> (r: Option<usize>)
        ensures
            match r {
                Some(i) => i < self.chunks@.len() && self.chunks@[i as int].hash@ == hash@
                    && self.chunks@[i as int].index == index,
                None => forall|j: int|
                    0 <= j < self.chunks@.len() ==> chunk_key(#[trigger] self.chunks@[j]) != (
                    hash@,
                    index as int,
                ),
            },
    {
        let mut i: usize = 0;
        while i < self.chunks.len()
            invariant
                i <= self.chunks@.len(),
                forall|j: int|
                    0 <= j < i ==> chunk_key(#[trigger] self.chunks@[j]) != (hash@, index as int),
            decreases self.chunks@.len() - i,
        {
            let rec = &self.chunks[i];
            if rec.index == index && str_eq(rec.hash.as_str(), hash) {
                return Some(i);
            }
            i += 1;
        }
        None
    }

    fn find_meta(&self, hash: &str) -> (r: Option<usize>)
        ensures
            match r {
                Some(i) => i < self.metas@.len() && self.metas@[i as int].hash@ == hash@,
                None => forall|j: int|
                    0 <= j < self.metas@.len() ==> (#[trigger] self.metas@[j]).hash@ != hash@,
            },
    {
        let mut i: usize = 0;
        while i < self.metas.len()
            invariant
                i <= self.metas@.len(),
                forall|j: int| 0 <= j < i ==> (#[trigger] self.metas@[j]).hash@ != hash@,
            decreases self.metas@.len() - i,
        {
            if str_eq(self.metas[i].hash.as_str(), hash) {
                return Some(i);
            }
            i += 1;
        }
        None
    }

    /// Stores the bytes for `(hash, index)`, replacing any prior payload
    /// under that key; all other chunks and all metadata stay as they were.
    pub fn store_chunk(&mut self, hash: &str, index: u32, data: &[u8])
        requires
            old(self).wf(),
            data@.len() <= CHUNK_SIZE,
        ensures
            final(self).wf(),
            final(self)@.chunks == old(self)@.chunks.insert((hash@, index as int), data@),
            final(self)@.metas == old(self)@.metas,
    {
        let d = vstd::slice::slice_to_vec(data);
        match self.find_chunk(hash, index) {
            Some(i) => {
                let rec = ChunkRecord { hash: hash.to_owned(), index, data: d };
                proof {
                    lemma_chunks_map_update(self.chunks@, i as int, rec);
                }
                self.chunks[i] = rec;
            }
            None => {
                let rec = ChunkRecord { hash: hash.to_owned(), index, data: d };
                proof {
                    lemma_chunks_map_push(self.chunks@, rec);
                }
                self.chunks.push(rec);
            }
        }
    }

    /// Records the expected chunk count for `hash`, replacing the whole
    /// prior record if one exists; chunks stay as they were.
    pub fn store_meta(&mut self, hash: &str, num_chunks: u32)
        requires
            old(self).wf(),
        ensures
            final(self).wf(),
            final(self)@.metas == old(self)@.metas.insert(hash@, num_chunks),
            final(self)@.chunks == old(self)@.chunks,
    {
        match self.find_meta(hash) {
            Some(i) => {
                let rec = MetaRecord { hash: hash.to_owned(), num_chunks };
                proof {
                    lemma_metas_map_update(self.metas@, i as int, rec);
                }
                self.metas[i] = rec;
            }
            None => {
                let rec = MetaRecord { hash: hash.to_owned(), num_chunks };
                proof {
                    lemma_metas_map_push(self.metas@, rec);
                }
                self.metas.push(rec);
            }
        }
    }

    /// Returns the stored bytes for `(hash, index)`, or `NotFound` if no
    /// chunk is stored under that key.
    pub fn load_chunk(&self, hash: &str, index: u32) -> (r: Result<Vec<u8>, ProtocolError>)
        requires
            self.wf(),
        ensures
            match r {
                Ok(d) => self@.chunks.contains_key((hash@, index as int)) && d@ == self@.chunks[(
                    hash@,
                    index as int,
                )],
                Err(e) => e is NotFound && !self@.chunks.contains_key((hash@, index as int)),
            },
    {
        proof {
            lemma_chunks_map_contains(self.chunks@, (hash@, index as int));
        }
        match self.find_chunk(hash, index) {
            Some(i) => {
                proof {
                    lemma_chunks_map_value(self.chunks@, i as int);
                }
                Ok(vstd::slice::slice_to_vec(self.chunks[i].data.as_slice()))
            }
            None => Err(ProtocolError::NotFound),
        }
    }

    /// Returns the recorded chunk count for `hash`, or `None` if no metadata
    /// is stored for it.
    pub fn load_meta(&self, hash: &str) -> (r: Option<u32>)
        requires
            self.wf(),
        ensures
            match r {
                Some(n) => self@.metas.contains_key(hash@) && n == self@.metas[hash@],
                None => !self@.metas.contains_key(hash@),
            },
    {
        proof {
            lemma_metas_map_contains(self.metas@, hash@);
        }
        match self.find_meta(hash) {
            Some(i) => {
                proof {
                    lemma_metas_map_value(self.metas@, i as int);
                }
                Some(self.metas[i].num_chunks)
            }
            None => None,
        }
    }

    /// Reports whether a chunk is stored under `(hash, index)`.
    pub fn has_chunk(&self, hash: &str, index: u32) -> (b: bool)
        requires
            self.wf(),
        ensures
            b == self@.chunks.contains_key((hash@, index as int)),
    {
        proof {
            lemma_chunks_map_contains(self.chunks@, (hash@, index as int));
        }
        match self.find_chunk(hash, index) {
            Some(_) => true,
            None => false,
        }
    }

    /// Audits the chunks stored for `hash` against the expected count (the
    /// argument when given, else the stored metadata) and reports
    /// completeness together with the closed ranges of missing indices.
    /// When no count is known the file counts as incomplete with nothing
    /// specific to request.
    pub fn validate_file(&self, hash: &str, num_chunks: Option<u32>) -> (r: (bool, Vec<(u32, u32)>))
        requires
            self.wf(),
        ensures
            match known_count(self@, hash@, num_chunks) {
                Some(n) => r.0 == file_complete(self@, hash@, n as int) && gap_report(
                    self@,
                    hash@,
                    n as int,
                    r.1@,
                ),
                None => r.0 == false && r.1@.len() == 0,
            },
    {
        let n = match num_chunks {
            Some(n) => n,
            None => match self.load_meta(hash) {
                Some(n) => n,
                None => {
                    return (false, Vec::new());
                }
            },
        };
        let mut ranges: Vec<(u32, u32)> = Vec::new();
        let mut run_start: Option<u32> = None;
        let mut i: u32 = 0;
        while i < n
            invariant
                self.wf(),
                i <= n,
                match run_start {
                    None => {
                        &&& partial_report(self@, hash@, ranges@, i as int)
                        &&& i == 0 || self@.chunks.contains_key((hash@, i as int - 1))
                    },
                    Some(s) => {
                        &&& partial_report(self@, hash@, ranges@, s as int)
                        &&& s < i
                        &&& s == 0 || self@.chunks.contains_key((hash@, s as int - 1))
                        &&& forall|j: int|
                            s <= j < i ==> !self@.chunks.contains_key((hash@, j))
                    },
                },
            decreases n - i,
        {
            let present = self.has_chunk(hash, i);
            match run_start {
                None => {
                    if !present {
                        run_start = Some(i);
                    }
                }
                Some(s) => {
                    if present {
                        proof {
                            lemma_close_run(self@, hash@, ranges@, s as int, i as int);
                        }
                        ranges.push((s, i - 1));
                        run_start = None;
                    }
                }
            }
            i += 1;
        }
        if let Some(s) = run_start {
            proof {
                lemma_close_run(self@, hash@, ranges@, s as int, n as int);
            }
            ranges.push((s, n - 1));
        }
        let complete = ranges.len() == 0;
        proof {
            assert(partial_report(self@, hash@, ranges@, n as int));
            if ranges@.len() > 0 {
                let i0 = ranges@[0].0 as int;
                assert(ranges@[0].0 <= i0 <= ranges@[0].1);
                assert(covered(ranges@, i0));
                assert(!self@.chunks.contains_key((hash@, i0)));
                assert(!file_complete(self@, hash@, n as int));
            } else {
                assert forall|j: int| 0 <= j < n implies self@.chunks.contains_key(
                    (hash@, j),
                ) by {
                    assert(!covered(ranges@, j));
                }
                assert(file_complete(self@, hash@, n as int));
            }
        }
        (complete, ranges)
    }

    /// Reassembles the file for `hash` by concatenating its chunks in index
    /// order, provided the metadata is present, every expected chunk is
    /// stored, and the digest of the reassembled bytes hex-encodes back to
    /// `hash`; otherwise reports an integrity fault.
    pub fn finalize_file(&self, hash: &str) -> (r: Result<Vec<u8>, ProtocolError>)
        requires
            self.wf(),
        ensures
            ({
                let n = self@.metas[hash@] as int;
                let ok = self@.metas.contains_key(hash@) && file_complete(self@, hash@, n)
                    && hex_of(digest_of(assemble(self@, hash@, n))) == hash@;
                &&& r is Ok <==> ok
                &&& (r matches Ok(bytes) ==> bytes@ == assemble(self@, hash@, n))
                &&& (r matches Err(e) ==> e is Integrity)
            }),
    {
        let n = match self.load_meta(hash) {
            Some(n) => n,
            None => {
                return Err(ProtocolError::Integrity);
            }
        };
        let mut out: Vec<u8> = Vec::new();
        let mut i: u32 = 0;
        while i < n
            invariant
                self.wf(),
                i <= n,
                self@.metas.contains_key(hash@) && n == self@.metas[hash@],
                out@ == assemble(self@, hash@, i as int),
                forall|j: int| 0 <= j < i ==> self@.chunks.contains_key((hash@, j)),
            decreases n - i,
        {
            match self.load_chunk(hash, i) {
                Ok(mut d) => {
                    out.append(&mut d);
                }
                Err(_) => {
                    assert(!file_complete(self@, hash@, n as int));
                    return Err(ProtocolError::Integrity);
                }
            }
            i += 1;
        }
        let dg = content_digest(out.as_slice());
        let hx = hex_str(dg.as_slice());
        if str_eq(hx.as_str(), hash) {
            Ok(out)
        } else {
            Err(ProtocolError::Integrity)
        }
    }
}

/// True when every index in `0..n` has a stored chunk for `h`.
pub open spec fn file_complete(m: StoreModel, h: Seq<char>, n: int) -> bool {
    forall|i: int| 0 <= i < n ==> m.chunks.contains_key((h, i))
}

/// The chunk count a validation runs against: the explicit count when given,
/// else the stored metadata, if any.
pub open spec fn known_count(m: StoreModel, h: Seq<char>, num_chunks: Option<u32>) -> Option<u32> {
    match num_chunks {
        Some(n) => Some(n),
        None => if m.metas.contains_key(h) {
            Some(m.metas[h])
        } else {
            None
        },
    }
}

/// Index `i` lies inside one of the closed ranges.
pub open spec fn covered(rs: Seq<(u32, u32)>, i: int) -> bool {
    exists|k: int| 0 <= k < rs.len() && (#[trigger] rs[k]).0 <= i <= rs[k].1
}

/// The ranges are closed, lie below `n`, ascend, and two neighbours never
/// touch: at least one index separates them.
pub open spec fn ranges_ordered(rs: Seq<(u32, u32)>, n: int) -> bool {
    &&& forall|k: int| 0 <= k < rs.len() ==> (#[trigger] rs[k]).0 <= rs[k].1 < n
    &&& forall|k: int|
        #![trigger rs[k], rs[k + 1]]
        0 <= k < rs.len() - 1 ==> rs[k].1 + 2 <= rs[k + 1].0
}

/// `rs` is exactly the gap report for `h` against `n` expected chunks: the
/// closed ranges, in ascending order, of the maximal runs of missing
/// indices in `0..n`.
pub open spec fn gap_report(m: StoreModel, h: Seq<char>, n: int, rs: Seq<(u32, u32)>) -> bool {
    &&& ranges_ordered(rs, n)
    &&& forall|i: int| 0 <= i < n ==> (covered(rs, i) <==> !m.chunks.contains_key((h, i)))
}

/// The file's bytes reassembled from its chunks in index order; a chunk that
/// is absent contributes nothing.
pub open spec fn assemble(m: StoreModel, h: Seq<char>, n: int) -> Seq<u8>
    decreases n,
{
    if n <= 0 {
        Seq::empty()
    } else {
        assemble(m, h, n - 1) + if m.chunks.contains_key((h, n - 1)) {
            m.chunks[(h, n - 1)]
        } else {
            Seq::empty()
        }
    }
}

spec fn partial_report(m: StoreModel, h: Seq<char>, rs: Seq<(u32, u32)>, bound: int) -> bool {
    &&& ranges_ordered(rs, bound)
    &&& forall|j: int| 0 <= j < bound ==> (covered(rs, j) <==> !m.chunks.contains_key((h, j)))
}

proof fn lemma_close_run(m: StoreModel, h: Seq<char>, rs: Seq<(u32, u32)>, s: int, end: int)
    requires
        partial_report(m, h, rs, s),
        0 <= s < end,
        s == 0 || m.chunks.contains_key((h, s - 1)),
        forall|j: int| s <= j < end ==> !m.chunks.contains_key((h, j)),
        s <= u32::MAX,
        end - 1 <= u32::MAX,
    ensures
        partial_report(m, h, rs.push((s as u32, (end - 1) as u32)), end),
{
    let nr = (s as u32, (end - 1) as u32);
    let rs2 = rs.push(nr);
    assert(rs2[rs.len() as int] == nr);
    assert(forall|k: int| 0 <= k < rs.len() ==> rs2[k] == rs[k]);
    if rs.len() > 0 {
        // the new range begins at least two past the previous end, since the
        // index before the run is present and every covered index is missing
        let p = rs[rs.len() - 1].1 as int;
        assert(p < s);
        if p + 1 == s {
            assert(s > 0);
            assert(covered(rs, s - 1));
        } else {
            assert(p + 2 <= s);
        }
    }
    assert forall|j: int| 0 <= j < end implies (covered(rs2, j) <==> !m.chunks.contains_key(
        (h, j),
    )) by {
        if j < s {
            if covered(rs2, j) {
                let k = choose|k: int|
                    0 <= k < rs2.len() && (#[trigger] rs2[k]).0 <= j <= rs2[k].1;
                if k == rs.len() {
                    assert(j >= s);
                } else {
                    assert(covered(rs, j));
                }
            }
            if covered(rs, j) {
                let k = choose|k: int| 0 <= k < rs.len() && (#[trigger] rs[k]).0 <= j <= rs[k].1;
                assert(rs2[k] == rs[k]);
                assert(covered(rs2, j));
            }
        } else {
            assert(rs2[rs.len() as int].0 <= j <= rs2[rs.len() as int].1);
            assert(covered(rs2, j));
        }
    }
}

proof fn lemma_ranges_ascend(rs: Seq<(u32, u32)>, n: int, a: int, b: int)
    requires
        ranges_ordered(rs, n),
        0 <= a < b < rs.len(),
    ensures
        rs[a].1 + 2 <= rs[b].0,
        rs[a].1 < rs[b].1,
    decreases b - a,
{
    if a + 1 < b {
        lemma_ranges_ascend(rs, n, a + 1, b);
        assert(rs[a].1 + 2 <= rs[a + 1].0);
        assert(rs[a + 1].0 <= rs[a + 1].1);
    }
}

proof fn lemma_gap_report_prefix(
    m: StoreModel,
    h: Seq<char>,
    n: int,
    rs1: Seq<(u32, u32)>,
    rs2: Seq<(u32, u32)>,
    k: int,
)
    requires
        gap_report(m, h, n, rs1),
        gap_report(m, h, n, rs2),
        0 <= k < rs1.len(),
        forall|j: int| 0 <= j < k ==> rs1[j] == rs2[j],
    ensures
        k < rs2.len(),
        rs1[k] == rs2[k],
{
    let s = rs1[k].0 as int;
    assert(covered(rs1, s));
    assert(!m.chunks.contains_key((h, s)));
    assert(covered(rs2, s));
    let j2 = choose|j: int| 0 <= j < rs2.len() && (#[trigger] rs2[j]).0 <= s <= rs2[j].1;
    // the covering range of rs2 cannot lie in the common prefix: those
    // ranges end before this one starts
    if j2 < k {
        assert(rs2[j2] == rs1[j2]);
        lemma_ranges_ascend(rs1, n, j2, k);
        assert(false);
    }
    assert(k < rs2.len());
    // the starts agree: a strictly earlier start would be a missing index
    // that the other report leaves uncovered
    assert forall|c1: Seq<(u32, u32)>, c2: Seq<(u32, u32)>|
        gap_report(m, h, n, c1) && gap_report(m, h, n, c2) && k < c1.len() && k < c2.len() && (
        forall|j: int| 0 <= j < k ==> c1[j] == c2[j]) implies c2[k].0 >= c1[k].0 by {
        if c2[k].0 < c1[k].0 {
            let x = c2[k].0 as int;
            assert(c2[k].0 <= x <= c2[k].1);
            assert(covered(c2, x));
            assert(!m.chunks.contains_key((h, x)));
            assert(covered(c1, x));
            let j1 = choose|j: int| 0 <= j < c1.len() && (#[trigger] c1[j]).0 <= x <= c1[j].1;
            if j1 < k {
                assert(c1[j1] == c2[j1]);
                lemma_ranges_ascend(c2, n, j1, k);
                assert(false);
            } else if j1 == k {
                assert(c1[k].0 <= x);
                assert(false);
            } else {
                lemma_ranges_ascend(c1, n, k, j1);
                assert(c1[j1].0 >= c1[k].0);
                assert(false);
            }
        }
    }
    assert(rs2[k].0 >= rs1[k].0);
    assert(rs1[k].0 >= rs2[k].0);
    // the ends agree: past a maximal run the next index is present, so the
    // longer range would cover a present index
    assert forall|c1: Seq<(u32, u32)>, c2: Seq<(u32, u32)>|
        gap_report(m, h, n, c1) && gap_report(m, h, n, c2) && k < c1.len() && k < c2.len()
            && c1[k].0 == c2[k].0 && (forall|j: int| 0 <= j < k ==> c1[j] == c2[j]) implies c2[k].1
        <= c1[k].1 by {
        if c2[k].1 > c1[k].1 {
            let x = c1[k].1 + 1;
            assert(c2[k].0 == c1[k].0 <= c1[k].1 < x <= c2[k].1);
            assert(covered(c2, x));
            assert(x < n);
            assert(!m.chunks.contains_key((h, x)));
            assert(covered(c1, x));
            let j1 = choose|j: int| 0 <= j < c1.len() && (#[trigger] c1[j]).0 <= x <= c1[j].1;
            if j1 < k {
                lemma_ranges_ascend(c1, n, j1, k);
                assert(false);
            } else if j1 == k {
                assert(false);
            } else {
                lemma_ranges_ascend(c1, n, k, j1);
                assert(false);
            }
        }
    }
    assert(rs2[k].1 <= rs1[k].1);
    assert(rs1[k].1 <= rs2[k].1);
    assert(rs1[k] == rs2[k]);
}

/// A store determines its gap report: two range lists that both report the
/// missing chunks of the same hash against the same expected count are
/// equal. The completeness audit's result is therefore pinned down
/// entirely.
pub proof fn lemma_gap_report_unique(
    m: StoreModel,
    h: Seq<char>,
    n: int,
    rs1: Seq<(u32, u32)>,
    rs2: Seq<(u32, u32)>,
)
    requires
        gap_report(m, h, n, rs1),
        gap_report(m, h, n, rs2),
    ensures
        rs1 == rs2,
{
    assert forall|k: int| 0 <= k < rs1.len() implies k < rs2.len() && rs1[k] == rs2[k] by {
        lemma_gap_report_prefix_upto(m, h, n, rs1, rs2, k);
    }
    assert forall|k: int| 0 <= k < rs2.len() implies k < rs1.len() && rs2[k] == rs1[k] by {
        lemma_gap_report_prefix_upto(m, h, n, rs2, rs1, k);
    }
    if rs1.len() > 0 {
        assert(rs1[rs1.len() - 1] == rs2[rs1.len() - 1]);
    }
    if rs2.len() > 0 {
        assert(rs2[rs2.len() - 1] == rs1[rs2.len() - 1]);
    }
    assert(rs1.len() == rs2.len());
    assert(rs1 =~= rs2);
}

proof fn lemma_gap_report_prefix_upto(
    m: StoreModel,
    h: Seq<char>,
    n: int,
    rs1: Seq<(u32, u32)>,
    rs2: Seq<(u32, u32)>,
    k: int,
)
    requires
        gap_report(m, h, n, rs1),
        gap_report(m, h, n, rs2),
        0 <= k < rs1.len(),
    ensures
        k < rs2.len(),
        forall|j: int| 0 <= j <= k ==> rs1[j] == rs2[j],
    decreases k,
{
    if k > 0 {
        lemma_gap_report_prefix_upto(m, h, n, rs1, rs2, k - 1);
    }
    lemma_gap_report_prefix(m, h, n, rs1, rs2, k);
}

/// Chunk `i` of a byte sequence split into `CHUNK_SIZE`-byte pieces; the
/// last piece may be shorter.
pub open spec fn chunk_of(data: Seq<u8>, i: int) -> Seq<u8> {
    data.subrange(
        i * (CHUNK_SIZE as int),
        if (i + 1) * (CHUNK_SIZE as int) <= data.len() {
            (i + 1) * (CHUNK_SIZE as int)
        } else {
            data.len() as int
        },
    )
}

/// How many chunks a byte sequence of the given length splits into.
pub open spec fn chunk_count(len: nat) -> nat {
    (((len + CHUNK_SIZE - 1) as int) / (CHUNK_SIZE as int)) as nat
}

/// The chunk map after importing `data` under hash `h`: keys `(h, 0)` up to
/// `(h, n - 1)` hold the successive pieces of `data`.
pub open spec fn import_chunks(
    mc: Map<(Seq<char>, int), Seq<u8>>,
    h: Seq<char>,
    data: Seq<u8>,
    n: int,
) -> Map<(Seq<char>, int), Seq<u8>>
    decreases n,
{
    if n <= 0 {
        mc
    } else {
        import_chunks(mc, h, data, n - 1).insert((h, n - 1), chunk_of(data, n - 1))
    }
}

proof fn lemma_import_chunks_at(
    mc: Map<(Seq<char>, int), Seq<u8>>,
    h: Seq<char>,
    data: Seq<u8>,
    n: int,
    i: int,
)
    requires
        0 <= i < n,
    ensures
        import_chunks(mc, h, data, n).contains_key((h, i)),
        import_chunks(mc, h, data, n)[(h, i)] == chunk_of(data, i),
    decreases n,
{
    if i < n - 1 {
        lemma_import_chunks_at(mc, h, data, n - 1, i);
    }
}

/// Storing a chunk under a key it already holds replaces the payload whole:
/// of two successive stores to the same key, the second alone decides what
/// is kept, and storing identical bytes twice leaves the chunk map exactly
/// as a single store does.
pub proof fn lemma_store_chunk_last_write_wins(
    mc: Map<(Seq<char>, int), Seq<u8>>,
    h: Seq<char>,
    i: int,
    d1: Seq<u8>,
    d2: Seq<u8>,
)
    ensures
        mc.insert((h, i), d1).insert((h, i), d2) == mc.insert((h, i), d2),
{
    assert(mc.insert((h, i), d1).insert((h, i), d2) =~= mc.insert((h, i), d2));
}

proof fn lemma_assemble_import_prefix(
    mc: Map<(Seq<char>, int), Seq<u8>>,
    mm: Map<Seq<char>, u32>,
    h: Seq<char>,
    data: Seq<u8>,
    k: int,
)
    requires
        0 <= k <= chunk_count(data.len()),
    ensures
        ({
            let n = chunk_count(data.len()) as int;
            let m2 = StoreModel { chunks: import_chunks(mc, h, data, n), metas: mm };
            let cs = CHUNK_SIZE as int;
            assemble(m2, h, k) == data.subrange(
                0,
                if k * cs <= data.len() {
                    k * cs
                } else {
                    data.len() as int
                },
            )
        }),
    decreases k,
{
    let n = chunk_count(data.len()) as int;
    let m2 = StoreModel { chunks: import_chunks(mc, h, data, n), metas: mm };
    let cs = CHUNK_SIZE as int;
    let len = data.len() as int;
    if k == 0 {
        assert(assemble(m2, h, 0) =~= data.subrange(0, 0));
    } else {
        lemma_assemble_import_prefix(mc, mm, h, data, k - 1);
        lemma_import_chunks_at(mc, h, data, n, k - 1);
        assert((k - 1) * cs <= len) by (nonlinear_arith)
            requires
                1 <= k <= n,
                n == (len + cs - 1) / cs,
                cs == 4096,
                len >= 0,
        ;
        let prev_end = (k - 1) * cs;
        let this_end = if k * cs <= len {
            k * cs
        } else {
            len
        };
        assert(prev_end <= this_end) by (nonlinear_arith)
            requires
                1 <= k,
                cs == 4096,
                prev_end == (k - 1) * cs,
                this_end == if k * cs <= len {
                    k * cs
                } else {
                    len
                },
                prev_end <= len,
        ;
        assert(assemble(m2, h, k) == assemble(m2, h, k - 1) + chunk_of(data, k - 1));
        assert(data.subrange(0, prev_end) + data.subrange(prev_end, this_end) =~= data.subrange(
            0,
            this_end,
        ));
    }
}

/// Importing a byte sequence and then finalizing reconstructs it exactly:
/// after `data` is imported under `h`, every chunk in `0..chunk_count` is
/// present and reassembly in index order yields `data` again — so the
/// digest recomputed over the reassembled bytes equals the digest recorded
/// at import.
pub proof fn lemma_import_reassembles(
    mc: Map<(Seq<char>, int), Seq<u8>>,
    mm: Map<Seq<char>, u32>,
    h: Seq<char>,
    data: Seq<u8>,
)
    ensures
        ({
            let n = chunk_count(data.len()) as int;
            let m2 = StoreModel { chunks: import_chunks(mc, h, data, n), metas: mm };
            &&& file_complete(m2, h, n)
            &&& assemble(m2, h, n) == data
            &&& digest_of(assemble(m2, h, n)) == digest_of(data)
        }),
{
    let n = chunk_count(data.len()) as int;
    let m2 = StoreModel { chunks: import_chunks(mc, h, data, n), metas: mm };
    let cs = CHUNK_SIZE as int;
    let len = data.len() as int;
    assert forall|i: int| 0 <= i < n implies m2.chunks.contains_key((h, i)) by {
        lemma_import_chunks_at(mc, h, data, n, i);
    }
    lemma_assemble_import_prefix(mc, mm, h, data, n);
    assert(n * cs >= len) by (nonlinear_arith)
        requires
            n == (len + cs - 1) / cs,
            cs == 4096,
            len >= 0,
    ;
    assert(data.subrange(0, len) =~= data);
}

} // verus!
