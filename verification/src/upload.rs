//! The resumable upload manager: sessions are created against a declared
//! total size, filled by independently sent byte ranges, and released only
//! once the recorded ranges cover the whole file.
use vstd::prelude::*;
use vstd::string::*;
use vstd::pervasive::VecAdditionalExecFns;

use crate::rangeset::RangeSet;
use crate::store::{
    Keyed, spec_has, spec_index_of, spec_at, spec_unique, lemma_at_index, lemma_update_store,
    lemma_remove_store, lemma_push_store,
};
use crate::strutil::{str_eq, bytes_to_hex, lemma_hex_len};
use crate::entropy::fresh_random_bytes;
use crate::pathguard::{spec_safe_filename, safe_filename};
use crate::DEFAULT_CHUNK_SIZE;

verus! {

#[derive(Clone, Copy, PartialEq, Eq, Structural, Debug)]
pub enum UploadError {
    /// No session under the given id.
    SessionNotFound,
    /// A chunk would write past the declared total size.
    RangeExceedsTotal,
    /// Completion was asked for before every byte was covered.
    IncompleteUpload,
    /// Rejected at creation: zero size or an unusable file name.
    InvalidArgument,
}

pub struct UploadSession {
    pub session_id: String,
    pub file_path: String,
    pub total_size: u64,
    pub uploaded_size: u64,
    pub chunk_size: u64,
    pub created_at: u64,
    /// The reconstructed file contents, one byte per declared position.
    pub data: Vec<u8>,
    /// Which positions have actually been written.
    pub written: RangeSet,
}

/// `data` with the bytes of `chunk` laid down at `off`.
pub open spec fn spec_splice(data: Seq<u8>, off: int, chunk: Seq<u8>) -> Seq<u8> {
    Seq::new(data.len(), |i: int| if off <= i < off + chunk.len() { chunk[i - off] } else { data[i] })
}

impl UploadSession {
    pub open spec fn wf(&self) -> bool {
        &&& self.total_size > 0
        &&& self.uploaded_size <= self.total_size
        &&& self.data@.len() == self.total_size
    }

    /// Every byte position below the declared total has been written.
    pub open spec fn complete(&self) -> bool {
        self.written.covers_upto(self.total_size as int)
    }

    /// Share of the declared size already reached by the high-water mark,
    /// in whole percent.
    pub fn progress_percent(&self) -> (r: u64)
        requires
            self.wf(),
        ensures
            r == self.uploaded_size as int * 100 / self.total_size as int,
    {
        let p: u128 = ((self.uploaded_size as u128) * 100) / (self.total_size as u128);
        proof {
            assert(self.uploaded_size as int * 100 / self.total_size as int <= 100) by (nonlinear_arith)
                requires
                    0 < self.total_size as int,
                    self.uploaded_size as int <= self.total_size as int,
            ;
        }
        p as u64
    }
}

impl Keyed for UploadSession {
    open spec fn key(&self) -> Seq<char> {
        self.session_id@
    }
}

pub struct ResumableUploadManager {
    sessions: Vec<UploadSession>,
    temp_dir: String,
}

impl ResumableUploadManager {
    /// The sessions the manager holds, as they stand.
    pub closed spec fn sessions_seq(&self) -> Seq<UploadSession> {
        self.sessions@
    }

    /// The directory under which partial files are placed.
    pub closed spec fn temp_root(&self) -> Seq<char> {
        self.temp_dir@
    }

    pub open spec fn inv(&self) -> bool {
        &&& spec_unique(self.sessions_seq())
        &&& forall|i: int|
            0 <= i < self.sessions_seq().len() ==> (#[trigger] self.sessions_seq()[i]).wf()
    }

    pub open spec fn has_session(&self, id: Seq<char>) -> bool {
        spec_has(self.sessions_seq(), id)
    }

    pub open spec fn session(&self, id: Seq<char>) -> UploadSession {
        spec_at(self.sessions_seq(), id)
    }

    pub fn new(temp_dir: &str) -> (r: ResumableUploadManager)
        ensures
            r.inv(),
            r.temp_root() == temp_dir@,
            forall|id: Seq<char>| !r.has_session(id),
    {
        ResumableUploadManager { sessions: Vec::new(), temp_dir: String::from_str(temp_dir) }
    }

    fn find_index(&self, session_id: &str) -> (r: Option<usize>)
        ensures
            match r {
                Some(i) => i < self.sessions@.len() && self.sessions@[i as int].session_id@
                    == session_id@,
                None => !self.has_session(session_id@),
            },
    {
        let mut i: usize = 0;
        while i < self.sessions.len()
            invariant
                0 <= i <= self.sessions@.len(),
                forall|j: int| 0 <= j < i ==> (#[trigger] self.sessions@[j]).session_id@ != session_id@,
            decreases self.sessions@.len() - i,
        {
            if str_eq(self.sessions[i].session_id.as_str(), session_id) {
                return Some(i);
            }
            i = i + 1;
        }
        None
    }

    /// Opens a session for a file of `total_size` bytes and returns its
    /// fresh id. The declared size must be positive and the name a single
    /// safe path component, else nothing is created.
    pub fn create_session(&mut self, filename: &str, total_size: u64, now: u64) -> (r: Result<
        String,
        UploadError,
    >)
        requires
            old(self).inv(),
            total_size <= usize::MAX as u64,
        ensures
            final(self).inv(),
            final(self).temp_root() == old(self).temp_root(),
            r matches Err(e) ==> e == UploadError::InvalidArgument && *final(self) == *old(self)
                && (total_size == 0 || !spec_safe_filename(filename@)),
            (total_size == 0 || !spec_safe_filename(filename@)) ==> r is Err,
            r matches Ok(id) ==> {
                &&& id@.len() == 32
                &&& final(self).has_session(id@)
                &&& final(self).session(id@).session_id@ == id@
                &&& final(self).session(id@).total_size == total_size
                &&& final(self).session(id@).uploaded_size == 0
                &&& final(self).session(id@).chunk_size == DEFAULT_CHUNK_SIZE
                &&& final(self).session(id@).created_at == now
                &&& final(self).session(id@).data@ == Seq::new(total_size as nat, |j: int| 0u8)
                &&& (forall|x: int| !final(self).session(id@).written.covered(x))
                &&& final(self).session(id@).file_path@ == old(self).temp_root() + seq!['/'] + id@
                    + ".partial"@
                &&& forall|id2: Seq<char>|
                    id2 != id@ ==> final(self).has_session(id2) == old(self).has_session(id2)
                &&& forall|id2: Seq<char>|
                    id2 != id@ && old(self).has_session(id2) ==> final(self).session(id2) == old(
                        self,
                    ).session(id2)
            },
    {
        if total_size == 0 || !safe_filename(filename) {
            return Err(UploadError::InvalidArgument);
        }
        let rb = fresh_random_bytes();
        let id = bytes_to_hex(&rb);
        proof {
            lemma_hex_len(rb@);
        }
        // A random id can in principle collide with a stored one; the
        // newer session replaces it, as a map insert would.
        match self.find_index(id.as_str()) {
            Some(i) => {
                proof {
                    lemma_remove_store(self.sessions@, i as int);
                }
                let _displaced = self.sessions.remove(i);
            },
            None => {},
        }
        let mut path = String::new();
        path.append(self.temp_dir.as_str());
        path.push('/');
        path.append(id.as_str());
        path.append(".partial");
        let n: usize = total_size as usize;
        let mut data: Vec<u8> = Vec::new();
        while data.len() < n
            invariant
                data@.len() <= n,
                forall|k: int| 0 <= k < data@.len() ==> data@[k] == 0u8,
            decreases n - data@.len(),
        {
            data.push(0u8);
        }
        proof {
            assert(data@ =~= Seq::new(total_size as nat, |j: int| 0u8));
        }
        let session = UploadSession {
            session_id: id.clone(),
            file_path: path,
            total_size,
            uploaded_size: 0,
            chunk_size: DEFAULT_CHUNK_SIZE,
            created_at: now,
            data,
            written: RangeSet::new(),
        };
        proof {
            lemma_push_store(self.sessions@, session);
            assert(session.file_path@ =~= old(self).temp_root() + seq!['/'] + id@ + ".partial"@);
        }
        self.sessions.push(session);
        Ok(id)
    }

    /// Writes one chunk at `offset`. A range reaching past the declared
    /// total is rejected with nothing changed; otherwise the bytes land in
    /// the session's buffer, the range is recorded, and the returned new
    /// high-water mark is the largest end of any chunk so far.
    pub fn upload_chunk(&mut self, session_id: &str, chunk_data: &[u8], offset: u64) -> (r: Result<
        u64,
        UploadError,
    >)
        requires
            old(self).inv(),
        ensures
            final(self).inv(),
            final(self).temp_root() == old(self).temp_root(),
            !old(self).has_session(session_id@) ==> r == Err::<u64, UploadError>(
                UploadError::SessionNotFound,
            ) && *final(self) == *old(self),
            old(self).has_session(session_id@) && offset + chunk_data@.len() > old(self).session(
                session_id@,
            ).total_size ==> r == Err::<u64, UploadError>(UploadError::RangeExceedsTotal)
                && *final(self) == *old(self),
            old(self).has_session(session_id@) && offset + chunk_data@.len() <= old(self).session(
                session_id@,
            ).total_size ==> {
                let s0 = old(self).session(session_id@);
                let s1 = final(self).session(session_id@);
                &&& final(self).has_session(session_id@)
                &&& s1.session_id == s0.session_id
                &&& s1.file_path == s0.file_path
                &&& s1.total_size == s0.total_size
                &&& s1.chunk_size == s0.chunk_size
                &&& s1.created_at == s0.created_at
                &&& s1.data@ == spec_splice(s0.data@, offset as int, chunk_data@)
                &&& (forall|x: int|
                    s1.written.covered(x) == (s0.written.covered(x) || offset <= x < offset
                        + chunk_data@.len()))
                &&& s1.uploaded_size == if offset + chunk_data@.len() > s0.uploaded_size {
                    offset + chunk_data@.len()
                } else {
                    s0.uploaded_size as int
                }
                &&& r == Ok::<u64, UploadError>(s1.uploaded_size)
                &&& forall|id2: Seq<char>|
                    id2 != session_id@ ==> final(self).has_session(id2) == old(self).has_session(
                        id2,
                    )
                &&& forall|id2: Seq<char>|
                    id2 != session_id@ && old(self).has_session(id2) ==> final(self).session(id2)
                        == old(self).session(id2)
            },
    {
        let idx = match self.find_index(session_id) {
            None => {
                return Err(UploadError::SessionNotFound);
            },
            Some(i) => i,
        };
        proof {
            lemma_at_index(self.sessions@, idx as int);
        }
        let chunk_len: u64 = chunk_data.len() as u64;
        let end: u64 = match offset.checked_add(chunk_len) {
            None => {
                return Err(UploadError::RangeExceedsTotal);
            },
            Some(e) => e,
        };
        if end > self.sessions[idx].total_size {
            return Err(UploadError::RangeExceedsTotal);
        }
        let ghost orig = self.sessions@;
        let mut s = self.sessions.remove(idx);
        let dlen: usize = s.data.len();
        proof {
            assert(offset <= dlen);
        }
        let off_usize: usize = offset as usize;
        let ghost data0 = s.data@;
        let ghost s0 = s;
        let mut k: usize = 0;
        while k < chunk_data.len()
            invariant
                k <= chunk_data@.len(),
                off_usize + chunk_data@.len() <= s.data@.len(),
                s.data@.len() == data0.len(),
                s.data@.len() == dlen,
                offset == off_usize,
                s.session_id == s0.session_id,
                s.file_path == s0.file_path,
                s.total_size == s0.total_size,
                s.uploaded_size == s0.uploaded_size,
                s.chunk_size == s0.chunk_size,
                s.created_at == s0.created_at,
                s.written == s0.written,
                forall|j: int|
                    0 <= j < s.data@.len() && !(off_usize <= j < off_usize + k) ==> s.data@[j]
                        == data0[j],
                forall|j: int|
                    off_usize <= j < off_usize + k ==> s.data@[j] == chunk_data@[j - off_usize],
            decreases chunk_data@.len() - k,
        {
            s.data.set(off_usize + k, chunk_data[k]);
            k = k + 1;
        }
        proof {
            assert(s.data@ =~= spec_splice(data0, offset as int, chunk_data@));
        }
        s.written.record(offset, end);
        if end > s.uploaded_size {
            s.uploaded_size = end;
        }
        let hwm = s.uploaded_size;
        proof {
            assert(orig.remove(idx as int).insert(idx as int, s) =~= orig.update(idx as int, s));
            lemma_update_store(orig, idx as int, s);
        }
        self.sessions.insert(idx, s);
        proof {
            assert(self.sessions@ =~= orig.update(idx as int, s));
        }
        Ok(hwm)
    }

    /// Looks a session up without touching it.
    pub fn get_session(&self, session_id: &str) -> (r: Option<&UploadSession>)
        requires
            self.inv(),
        ensures
            match r {
                Some(s) => self.has_session(session_id@) && *s == self.session(session_id@),
                None => !self.has_session(session_id@),
            },
    {
        match self.find_index(session_id) {
            None => None,
            Some(i) => {
                proof {
                    lemma_at_index(self.sessions@, i as int);
                }
                Some(&self.sessions[i])
            },
        }
    }

    /// A look at the assembled bytes once every position is covered,
    /// leaving the session in place: callers persist these first and only
    /// then release the session with complete_upload, so a failed write
    /// loses neither the session nor its data.
    pub fn finished_data(&self, session_id: &str) -> (r: Result<&Vec<u8>, UploadError>)
        requires
            self.inv(),
        ensures
            match r {
                Ok(d) => self.has_session(session_id@) && self.session(session_id@).complete()
                    && d@ == self.session(session_id@).data@,
                Err(e) => (e == UploadError::SessionNotFound && !self.has_session(session_id@)) || (
                e == UploadError::IncompleteUpload && self.has_session(session_id@) && !self.session(
                    session_id@,
                ).complete()),
            },
    {
        let idx = match self.find_index(session_id) {
            None => {
                return Err(UploadError::SessionNotFound);
            },
            Some(i) => i,
        };
        proof {
            lemma_at_index(self.sessions@, idx as int);
        }
        let s = &self.sessions[idx];
        if s.written.is_complete(s.total_size) {
            Ok(&s.data)
        } else {
            Err(UploadError::IncompleteUpload)
        }
    }

    /// Releases a finished upload: only when the recorded ranges cover the
    /// whole declared size is the session removed and its bytes handed
    /// out. Vetting the destination path is the path guard's affair,
    /// before anything is written there.
    pub fn complete_upload(&mut self, session_id: &str) -> (r: Result<Vec<u8>, UploadError>)
        requires
            old(self).inv(),
        ensures
            final(self).inv(),
            final(self).temp_root() == old(self).temp_root(),
            !old(self).has_session(session_id@) ==> r == Err::<Vec<u8>, UploadError>(
                UploadError::SessionNotFound,
            ) && *final(self) == *old(self),
            old(self).has_session(session_id@) && !old(self).session(session_id@).complete() ==> r
                == Err::<Vec<u8>, UploadError>(UploadError::IncompleteUpload) && *final(self)
                == *old(self),
            old(self).has_session(session_id@) && old(self).session(session_id@).complete() ==> {
                &&& r matches Ok(bytes) && bytes@ == old(self).session(session_id@).data@
                &&& !final(self).has_session(session_id@)
                &&& forall|id2: Seq<char>|
                    id2 != session_id@ ==> final(self).has_session(id2) == old(self).has_session(
                        id2,
                    )
                &&& forall|id2: Seq<char>|
                    id2 != session_id@ && old(self).has_session(id2) ==> final(self).session(id2)
                        == old(self).session(id2)
            },
    {
        let idx = match self.find_index(session_id) {
            None => {
                return Err(UploadError::SessionNotFound);
            },
            Some(i) => i,
        };
        proof {
            lemma_at_index(self.sessions@, idx as int);
        }
        let complete = {
            let s = &self.sessions[idx];
            s.written.is_complete(s.total_size)
        };
        if !complete {
            return Err(UploadError::IncompleteUpload);
        }
        proof {
            lemma_remove_store(self.sessions@, idx as int);
        }
        let s = self.sessions.remove(idx);
        Ok(s.data)
    }

    /// Drops every session created at or before `now - max_age`, so that
    /// abandoned uploads do not accumulate.
    pub fn sweep(&mut self, now: u64, max_age: u64)
        requires
            old(self).inv(),
        ensures
            final(self).inv(),
            final(self).temp_root() == old(self).temp_root(),
            forall|id: Seq<char>|
                final(self).has_session(id) == (old(self).has_session(id) && old(self).session(
                    id,
                ).created_at + max_age >= now),
            forall|id: Seq<char>|
                final(self).has_session(id) ==> final(self).session(id) == old(self).session(id),
    {
        let ghost orig = self.sessions@;
        let mut kept: Vec<UploadSession> = Vec::new();
        while self.sessions.len() > 0
            invariant
                spec_unique(orig),
                forall|i: int| 0 <= i < orig.len() ==> (#[trigger] orig[i]).wf(),
                self.sessions@.len() <= orig.len(),
                self.sessions@ == orig.take(self.sessions@.len() as int),
                self.temp_dir@ == old(self).temp_dir@,
                spec_unique(kept@),
                forall|i: int| 0 <= i < kept@.len() ==> (#[trigger] kept@[i]).wf(),
                forall|id: Seq<char>|
                    spec_has(kept@, id) == (spec_has(orig, id) && spec_index_of(orig, id)
                        >= self.sessions@.len() && spec_at(orig, id).created_at + max_age >= now),
                forall|id: Seq<char>|
                    spec_has(kept@, id) ==> spec_at(kept@, id) == spec_at(orig, id),
            decreases self.sessions@.len(),
        {
            let ghost m = self.sessions@.len() as int;
            let ghost kept0 = kept@;
            let last = self.sessions.len() - 1;
            let s = self.sessions.remove(last);
            proof {
                assert(orig.take(m)[m - 1] == orig[m - 1]);
                assert(s == orig[m - 1]);
                assert(self.sessions@ =~= orig.take(m - 1));
                lemma_at_index(orig, m - 1);
            }
            let ghost sid = s.session_id@;
            let fresh = now <= max_age || s.created_at >= now - max_age;
            if fresh {
                proof {
                    if spec_has(kept@, sid) {
                        assert(spec_index_of(orig, sid) >= m);
                    }
                    lemma_push_store(kept@, s);
                }
                kept.push(s);
            }
            proof {
                let ghost sfresh = spec_at(orig, sid).created_at + max_age >= now;
                assert(sfresh == (now <= max_age || s.created_at >= now - max_age));
                assert forall|id: Seq<char>|
                    spec_has(kept@, id) == (spec_has(orig, id) && spec_index_of(orig, id) >= m - 1
                        && spec_at(orig, id).created_at + max_age >= now) by {
                    if id == sid {
                        assert(spec_index_of(orig, sid) == m - 1);
                        if fresh {
                            assert(spec_has(kept@, sid));
                        } else {
                            if spec_has(kept@, sid) {
                                assert(spec_has(kept0, sid));
                                assert(spec_index_of(orig, sid) >= m);
                            }
                        }
                    } else {
                        assert(spec_has(kept@, id) == spec_has(kept0, id));
                        if spec_has(orig, id) {
                            let ki = spec_index_of(orig, id);
                            assert(0 <= ki < orig.len() && orig[ki].session_id@ == id);
                            assert(ki != m - 1);
                        }
                    }
                }
                assert forall|id: Seq<char>| spec_has(kept@, id) implies spec_at(kept@, id)
                    == spec_at(orig, id) by {
                    if id == sid {
                        assert(spec_at(orig, sid) == s);
                    } else {
                        assert(spec_has(kept0, id));
                    }
                }
                assert(self.sessions@.len() == m - 1);
                assert forall|id: Seq<char>|
                    spec_has(kept@, id) == (spec_has(orig, id) && spec_index_of(orig, id)
                        >= self.sessions@.len() && spec_at(orig, id).created_at + max_age
                        >= now) by {
                    assert(spec_has(kept@, id) == (spec_has(orig, id) && spec_index_of(orig, id)
                        >= m - 1 && spec_at(orig, id).created_at + max_age >= now));
                }
            }
        }
        self.sessions = kept;
    }
}


/// Whether chunk `c`, laid at its offset, covers position `x`.
pub open spec fn spec_chunk_covers(c: (int, Seq<u8>), x: int) -> bool {
    c.0 <= x < c.0 + c.1.len()
}

/// No position belongs to two chunks.
pub open spec fn spec_chunks_disjoint(chunks: Seq<(int, Seq<u8>)>) -> bool {
    forall|k1: int, k2: int, x: int|
        #![trigger spec_chunk_covers(chunks[k1], x), spec_chunk_covers(chunks[k2], x)]
        0 <= k1 < chunks.len() && 0 <= k2 < chunks.len() && k1 != k2 ==> !(spec_chunk_covers(
            chunks[k1],
            x,
        ) && spec_chunk_covers(chunks[k2], x))
}

/// Every chunk lies inside `[0, n)`.
pub open spec fn spec_chunks_within(chunks: Seq<(int, Seq<u8>)>, n: int) -> bool {
    forall|k: int|
        0 <= k < chunks.len() ==> 0 <= (#[trigger] chunks[k]).0 && chunks[k].0
            + chunks[k].1.len() <= n
}

/// The chunks written one after another onto `data`, in arrival order.
pub open spec fn spec_apply_chunks(data: Seq<u8>, chunks: Seq<(int, Seq<u8>)>) -> Seq<u8>
    decreases chunks.len(),
{
    if chunks.len() == 0 {
        data
    } else {
        spec_splice(spec_apply_chunks(data, chunks.drop_last()), chunks.last().0, chunks.last().1)
    }
}

/// Reconstruction from a non-overlapping set of chunks: wherever some
/// chunk covers a position, the final buffer holds that chunk's byte —
/// whatever order the chunks arrived in — and untouched positions keep
/// their old bytes. With chunks covering all of `[0, n)`, the buffer is
/// byte-identical to the chunks concatenated in offset order.
pub proof fn lemma_partition_reconstruction(data: Seq<u8>, chunks: Seq<(int, Seq<u8>)>)
    requires
        spec_chunks_within(chunks, data.len() as int),
        spec_chunks_disjoint(chunks),
    ensures
        spec_apply_chunks(data, chunks).len() == data.len(),
        forall|k: int, x: int|
            #![trigger spec_chunk_covers(chunks[k], x)]
            0 <= k < chunks.len() && spec_chunk_covers(chunks[k], x) ==> spec_apply_chunks(
                data,
                chunks,
            )[x] == chunks[k].1[x - chunks[k].0],
        forall|x: int|
            0 <= x < data.len() && !(exists|k: int|
                0 <= k < chunks.len() && spec_chunk_covers(#[trigger] chunks[k], x))
                ==> spec_apply_chunks(data, chunks)[x] == data[x],
    decreases chunks.len(),
{
    if chunks.len() == 0 {
    } else {
        let pre = chunks.drop_last();
        let last = chunks.last();
        assert(forall|k: int| 0 <= k < pre.len() ==> pre[k] == chunks[k]);
        lemma_partition_reconstruction(data, pre);
        let applied = spec_apply_chunks(data, pre);
        let result = spec_apply_chunks(data, chunks);
        assert(result == spec_splice(applied, last.0, last.1));
        assert forall|k: int, x: int|
            #![trigger spec_chunk_covers(chunks[k], x)]
            0 <= k < chunks.len() && spec_chunk_covers(chunks[k], x) implies result[x]
            == chunks[k].1[x - chunks[k].0] by {
            if k == chunks.len() - 1 {
                assert(result[x] == last.1[x - last.0]);
            } else {
                assert(!(spec_chunk_covers(chunks[k], x) && spec_chunk_covers(
                    chunks[chunks.len() - 1],
                    x,
                )));
                assert(applied[x] == chunks[k].1[x - chunks[k].0]);
                assert(result[x] == applied[x]);
            }
        }
        assert forall|x: int|
            0 <= x < data.len() && !(exists|k: int|
                0 <= k < chunks.len() && spec_chunk_covers(#[trigger] chunks[k], x)) implies
            result[x] == data[x] by {
            assert(!spec_chunk_covers(chunks[chunks.len() - 1], x));
            if exists|k: int| 0 <= k < pre.len() && spec_chunk_covers(#[trigger] pre[k], x) {
                let k = choose|k: int|
                    0 <= k < pre.len() && spec_chunk_covers(#[trigger] pre[k], x);
                assert(spec_chunk_covers(chunks[k], x));
            }
            assert(applied[x] == data[x]);
        }
    }
}


/// Total byte count of a chunk list.
pub open spec fn spec_chunks_bytes_len(chunks: Seq<(int, Seq<u8>)>) -> int
    decreases chunks.len(),
{
    if chunks.len() == 0 {
        0
    } else {
        spec_chunks_bytes_len(chunks.drop_last()) + chunks.last().1.len()
    }
}

/// Bytes written before chunk `k` in an offset-ordered list.
pub open spec fn spec_prefix_len(chunks: Seq<(int, Seq<u8>)>, k: int) -> int {
    spec_chunks_bytes_len(chunks.take(k))
}

/// The chunks sit end to end: each offset is the sum of the lengths
/// before it.
pub open spec fn spec_chunks_consecutive(chunks: Seq<(int, Seq<u8>)>) -> bool {
    forall|k: int| 0 <= k < chunks.len() ==> (#[trigger] chunks[k]).0 == spec_prefix_len(chunks, k)
}

/// The chunks' bytes, one after another in list order.
pub open spec fn spec_concat(chunks: Seq<(int, Seq<u8>)>) -> Seq<u8>
    decreases chunks.len(),
{
    if chunks.len() == 0 {
        Seq::empty()
    } else {
        spec_concat(chunks.drop_last()) + chunks.last().1
    }
}

proof fn lemma_bytes_len_nonneg(chunks: Seq<(int, Seq<u8>)>)
    ensures
        spec_chunks_bytes_len(chunks) >= 0,
    decreases chunks.len(),
{
    if chunks.len() > 0 {
        lemma_bytes_len_nonneg(chunks.drop_last());
    }
}

proof fn lemma_prefix_step(chunks: Seq<(int, Seq<u8>)>, k: int)
    requires
        0 <= k < chunks.len(),
    ensures
        spec_prefix_len(chunks, k + 1) == spec_prefix_len(chunks, k) + chunks[k].1.len(),
{
    assert(chunks.take(k + 1).drop_last() =~= chunks.take(k));
    assert(chunks.take(k + 1).last() == chunks[k]);
}

proof fn lemma_prefix_monotone(chunks: Seq<(int, Seq<u8>)>, a: int, b: int)
    requires
        0 <= a <= b <= chunks.len(),
    ensures
        spec_prefix_len(chunks, a) <= spec_prefix_len(chunks, b),
    decreases b - a,
{
    if a < b {
        lemma_prefix_step(chunks, b - 1);
        lemma_prefix_monotone(chunks, a, b - 1);
    }
}

/// Indexing the concatenation: position `prefix(k) + d` holds byte `d`
/// of chunk `k`.
proof fn lemma_concat_index(chunks: Seq<(int, Seq<u8>)>)
    ensures
        spec_concat(chunks).len() == spec_chunks_bytes_len(chunks),
        forall|k: int, d: int|
            #![trigger chunks[k].1[d]]
            0 <= k < chunks.len() && 0 <= d < chunks[k].1.len() ==> spec_concat(chunks)[
                spec_prefix_len(chunks, k) + d
            ] == chunks[k].1[d],
    decreases chunks.len(),
{
    if chunks.len() > 0 {
        let pre = chunks.drop_last();
        lemma_concat_index(pre);
        assert(pre.take(pre.len() as int) =~= pre);
        assert(chunks.take(chunks.len() - 1) =~= pre);
        assert forall|k: int, d: int|
            #![trigger chunks[k].1[d]]
            0 <= k < chunks.len() && 0 <= d < chunks[k].1.len() implies spec_concat(chunks)[
                spec_prefix_len(chunks, k) + d
            ] == chunks[k].1[d] by {
            lemma_bytes_len_nonneg(chunks.take(k));
            if k < chunks.len() - 1 {
                assert(chunks.take(k) =~= pre.take(k));
                assert(pre[k] == chunks[k]);
                lemma_prefix_step(pre, k);
                lemma_prefix_monotone(pre, k + 1, pre.len() as int);
                assert(spec_concat(pre)[spec_prefix_len(pre, k) + d] == pre[k].1[d]);
            } else {
                assert(spec_prefix_len(chunks, k) == spec_chunks_bytes_len(pre));
                assert(spec_concat(chunks)[spec_chunks_bytes_len(pre) + d] == chunks.last().1[d]);
            }
        }
    }
}

/// Some chunk of an end-to-end list holds each position below the total.
proof fn lemma_locate_chunk(chunks: Seq<(int, Seq<u8>)>, x: int) -> (k: int)
    requires
        0 <= x < spec_prefix_len(chunks, chunks.len() as int),
    ensures
        0 <= k < chunks.len(),
        spec_prefix_len(chunks, k) <= x < spec_prefix_len(chunks, k) + chunks[k].1.len(),
    decreases chunks.len(),
{
    assert(chunks.len() > 0) by {
        if chunks.len() == 0 {
            assert(chunks.take(0) =~= chunks);
        }
    }
    let pre = chunks.drop_last();
    assert(chunks.take(chunks.len() - 1) =~= pre);
    assert(pre.take(pre.len() as int) =~= pre);
    lemma_prefix_step(chunks, chunks.len() - 1);
    if x < spec_prefix_len(chunks, chunks.len() - 1) {
        let k = lemma_locate_chunk(pre, x);
        assert(pre.take(k) =~= chunks.take(k));
        assert(pre.take(k + 1) =~= chunks.take(k + 1));
        lemma_prefix_step(pre, k);
        lemma_prefix_step(chunks, k);
        k
    } else {
        chunks.len() - 1
    }
}

/// The reconstruction law in full: chunks that tile `[0, data.len())`
/// end to end, written in any arrival order that never overlaps, leave
/// the buffer byte-identical to their concatenation in offset order.
/// `ordered` is the arrival list rearranged by offset; handing the same
/// multiset of chunks ties the two.
pub proof fn lemma_partition_equals_ordered_concat(
    data: Seq<u8>,
    arrival: Seq<(int, Seq<u8>)>,
    ordered: Seq<(int, Seq<u8>)>,
)
    requires
        spec_chunks_disjoint(arrival),
        spec_chunks_consecutive(ordered),
        spec_prefix_len(ordered, ordered.len() as int) == data.len(),
        arrival.to_multiset() == ordered.to_multiset(),
    ensures
        spec_apply_chunks(data, arrival) == spec_concat(ordered),
{
    broadcast use vstd::seq_lib::group_to_multiset_ensures;

    lemma_concat_index(ordered);
    assert(ordered.take(ordered.len() as int) =~= ordered);
    // every chunk of either list lies inside [0, data.len())
    assert forall|k: int| 0 <= k < ordered.len() implies 0 <= (#[trigger] ordered[k]).0
        && ordered[k].0 + ordered[k].1.len() <= data.len() by {
        lemma_bytes_len_nonneg(ordered.take(k));
        lemma_prefix_step(ordered, k);
        lemma_prefix_monotone(ordered, k + 1, ordered.len() as int);
    }
    assert forall|j: int| 0 <= j < arrival.len() implies 0 <= (#[trigger] arrival[j]).0
        && arrival[j].0 + arrival[j].1.len() <= data.len() by {
        assert(arrival.contains(arrival[j]));
        assert(arrival.to_multiset().count(arrival[j]) > 0);
        assert(ordered.contains(arrival[j]));
        let k = choose|k: int| 0 <= k < ordered.len() && ordered[k] == arrival[j];
        assert(0 <= ordered[k].0 && ordered[k].0 + ordered[k].1.len() <= data.len());
    }
    assert(spec_chunks_within(arrival, data.len() as int));
    lemma_partition_reconstruction(data, arrival);
    let applied = spec_apply_chunks(data, arrival);
    assert forall|x: int| 0 <= x < data.len() implies applied[x] == spec_concat(ordered)[x] by {
        let k = lemma_locate_chunk(ordered, x);
        let e = ordered[k];
        assert(spec_concat(ordered)[x] == e.1[x - spec_prefix_len(ordered, k)]);
        assert(e.0 == spec_prefix_len(ordered, k));
        assert(ordered.contains(e));
        assert(ordered.to_multiset().count(e) > 0);
        assert(arrival.contains(e));
        let j = choose|j: int| 0 <= j < arrival.len() && arrival[j] == e;
        assert(spec_chunk_covers(arrival[j], x));
        assert(applied[x] == arrival[j].1[x - arrival[j].0]);
    }
    assert(applied =~= spec_concat(ordered));
}

} // verus!
