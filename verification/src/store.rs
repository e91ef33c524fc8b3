use crate::crypto::{blake3_hash, blake3_of, EncKey, FileHash};
use crate::envelope::Encrypted;
use crate::message::{FileChunk, FileMessage};
use crate::wire::Wire;
use crate::FILE_CHUNK_SIZE;
use vstd::prelude::*;

verus! {

/// How many chunks a file of the given size splits into.
pub open spec fn nchunks_of(size: nat) -> nat {
    size / (FILE_CHUNK_SIZE as nat) + if size % (FILE_CHUNK_SIZE as nat) == 0 {
        0nat
    } else {
        1nat
    }
}

/// The bytes of a file after one chunk's span is overwritten with the
/// prefix of the given chunk bytes that falls inside the file.
pub open spec fn with_chunk(data: Seq<u8>, chunki: int, cbytes: Seq<u8>) -> Seq<u8> {
    Seq::new(
        data.len(),
        |i: int|
            if chunki * FILE_CHUNK_SIZE <= i < chunki * FILE_CHUNK_SIZE + FILE_CHUNK_SIZE {
                cbytes[i - chunki * FILE_CHUNK_SIZE]
            } else {
                data[i]
            },
    )
}

/// Every chunk of a partial file has arrived.
pub open spec fn parts_full(fp: &FileParts) -> bool {
    forall|j: int| 0 <= j < fp.present@.len() ==> #[trigger] fp.present@[j]
}

/// What one encrypted chunk does to one partial file: nothing where the
/// chunk was already present or decrypts to nothing; otherwise the
/// decrypted bytes land in the chunk's span and its flag is set.
pub open spec fn chunk_applied(
    pre: &FileParts,
    post: &FileParts,
    chunki: int,
    chunk: Encrypted<FileChunk>,
) -> bool {
    &&& post.wf()
    &&& post.enc_key == pre.enc_key
    &&& post.data@.len() == pre.data@.len()
    &&& (pre.present@[chunki] ==> *post == *pre)
    &&& (forall|c: FileChunk|
        !pre.present@[chunki] && #[trigger] chunk.decrypts_to(pre.enc_key, c)
            ==> post.present@ == pre.present@.update(chunki, true) && post.data@ == with_chunk(
            pre.data@,
            chunki,
            c.0@,
        ))
    &&& ((forall|c: FileChunk| !#[trigger] chunk.decrypts_to(pre.enc_key, c)) ==> *post == *pre)
}

/// A file still being received: its key, which chunks arrived, and the
/// bytes so far.
pub struct FileParts {
    pub enc_key: EncKey,
    pub present: Vec<bool>,
    pub data: Vec<u8>,
}

impl FileParts {
    /// One presence flag per chunk.
    pub open spec fn wf(&self) -> bool {
        self.present@.len() == nchunks_of(self.data@.len())
    }

    /// A fresh, empty reassembly buffer of the given size.
    pub fn new(size: usize, enc_key: EncKey) -> (r: Self)
        ensures
            r.wf(),
            r.enc_key == enc_key,
            r.data@.len() == size,
            forall|i: int| 0 <= i < size ==> r.data@[i] == 0u8,
            forall|i: int| 0 <= i < r.present@.len() ==> !(#[trigger] r.present@[i]),
    {
        let n: usize = size / FILE_CHUNK_SIZE + if size % FILE_CHUNK_SIZE == 0 {
            0
        } else {
            1
        };
        let mut present: Vec<bool> = Vec::new();
        let mut i: usize = 0;
        #[verifier::loop_isolation(false)]
        while i < n
            invariant
                i <= n,
                present@.len() == i,
                forall|j: int| 0 <= j < i ==> !(#[trigger] present@[j]),
            decreases n - i,
        {
            present.push(false);
            i += 1;
        }
        let mut data: Vec<u8> = Vec::new();
        let mut j: usize = 0;
        #[verifier::loop_isolation(false)]
        while j < size
            invariant
                j <= size,
                data@.len() == j,
                forall|k: int| 0 <= k < j ==> data@[k] == 0u8,
            decreases size - j,
        {
            data.push(0);
            j += 1;
        }
        FileParts { enc_key, present, data }
    }

    /// How many chunks this file splits into.
    pub fn nchunks(&self) -> (r: usize)
        requires
            self.wf(),
        ensures
            r == nchunks_of(self.data@.len()),
            r == self.present@.len(),
    {
        self.present.len()
    }

    /// Whether every chunk has arrived.
    pub fn is_full(&self) -> (r: bool)
        ensures
            r == (forall|i: int| 0 <= i < self.present@.len() ==> #[trigger] self.present@[i]),
    {
        let n = self.present.len();
        let mut i: usize = 0;
        #[verifier::loop_isolation(false)]
        while i < n
            invariant
                i <= n,
                forall|j: int| 0 <= j < i ==> #[trigger] self.present@[j],
            decreases n - i,
        {
            if !self.present[i] {
                return false;
            }
            i += 1;
        }
        true
    }

    /// The start of a chunk's span lies inside the file.
    proof fn lemma_chunk_bounds(&self, chunki: int)
        requires
            self.wf(),
            0 <= chunki < self.present@.len(),
        ensures
            chunki * FILE_CHUNK_SIZE < self.data@.len(),
            chunki * FILE_CHUNK_SIZE + FILE_CHUNK_SIZE <= self.data@.len() || self.data@.len()
                - chunki * FILE_CHUNK_SIZE < FILE_CHUNK_SIZE,
    {
        let len = self.data@.len() as int;
        let c = FILE_CHUNK_SIZE as int;
        assert(chunki <= len / c);
        assert(chunki * c < len) by (nonlinear_arith)
            requires
                c > 0,
                len >= 0,
                0 <= chunki,
                chunki < len / c + if len % c == 0 {
                    0int
                } else {
                    1int
                },
        ;
    }

    /// Stores the bytes of one newly arrived chunk; a chunk already
    /// present is left alone.
    pub fn add_chunk(&mut self, chunki: usize, data: &[u8])
        requires
            old(self).wf(),
            chunki < old(self).present@.len(),
            data@.len() == if (chunki + 1) * FILE_CHUNK_SIZE <= old(self).data@.len() {
                FILE_CHUNK_SIZE as int
            } else {
                old(self).data@.len() - chunki * FILE_CHUNK_SIZE
            },
        ensures
            final(self).wf(),
            final(self).enc_key == old(self).enc_key,
            final(self).data@.len() == old(self).data@.len(),
            old(self).present@[chunki as int] ==> *final(self) == *old(self),
            !old(self).present@[chunki as int] ==> {
                &&& final(self).present@ == old(self).present@.update(chunki as int, true)
                &&& forall|i: int|
                    0 <= i < old(self).data@.len() ==> final(self).data@[i] == (if chunki
                        * FILE_CHUNK_SIZE <= i < chunki * FILE_CHUNK_SIZE + data@.len() {
                        data@[i - chunki * FILE_CHUNK_SIZE]
                    } else {
                        old(self).data@[i]
                    })
            },
    {
        proof {
            self.lemma_chunk_bounds(chunki as int);
        }
        if self.present[chunki] {
            return ;
        }
        let total = self.data.len();
        proof {
            assert(chunki * FILE_CHUNK_SIZE < total);
        }
        let sl: usize = chunki * FILE_CHUNK_SIZE;
        self.present.set(chunki, true);
        let mut i: usize = 0;
        let n = data.len();
        proof {
            assert(chunki * FILE_CHUNK_SIZE + FILE_CHUNK_SIZE == (chunki + 1) * FILE_CHUNK_SIZE)
                by (nonlinear_arith);
            assert(sl + n <= total);
        }
        #[verifier::loop_isolation(false)]
        while i < n
            invariant
                i <= n,
                sl + n <= self.data@.len(),
                self.data@.len() == old(self).data@.len(),
                self.present@ == old(self).present@.update(chunki as int, true),
                self.enc_key == old(self).enc_key,
                forall|k: int|
                    0 <= k < self.data@.len() ==> #[trigger] self.data@[k] == (if sl <= k < sl + i {
                        data@[k - sl]
                    } else {
                        old(self).data@[k]
                    }),
            decreases n - i,
        {
            self.data.set(sl + i, data[i]);
            i += 1;
        }
    }

    /// Decrypts one arriving chunk with the file's key and stores what
    /// falls inside the file; an undecryptable chunk or one already
    /// present changes nothing.
    pub fn add_enc_chunk(&mut self, chunki: usize, chunk: Encrypted<FileChunk>)
        requires
            old(self).wf(),
            chunki < old(self).present@.len(),
            chunk.data@.len() <= crate::crypto::MAX_KEYSTREAM_LEN as int,
        ensures
            chunk_applied(old(self), final(self), chunki as int, chunk),
    {
        proof {
            self.lemma_chunk_bounds(chunki as int);
        }
        if self.present[chunki] {
            return ;
        }
        let key = self.enc_key;
        match chunk.inner(&key) {
            None => {},
            Some(c) => {
                let len = self.data.len();
                let sl: usize = chunki * FILE_CHUNK_SIZE;
                let span: usize = if len - sl >= FILE_CHUNK_SIZE {
                    FILE_CHUNK_SIZE
                } else {
                    len - sl
                };
                let cs = vstd::array::array_as_slice(&c.0);
                let part = crate::wire::copy_range(cs, 0, span);
                self.add_chunk(chunki, part.as_slice());
                proof {
                    assert forall|c2: FileChunk| chunk.decrypts_to(old(self).enc_key, c2)
                        implies final(self).data@ == with_chunk(
                        old(self).data@,
                        chunki as int,
                        c2.0@,
                    ) && final(self).present@ == old(self).present@.update(chunki as int, true) by {
                        assert(c2.0@ == c.0@) by {
                            assert(c2.wire() == c.wire());
                        }
                        assert(final(self).data@ =~= with_chunk(
                            old(self).data@,
                            chunki as int,
                            c2.0@,
                        ));
                    }
                }
            },
        }
    }

    /// The whole file, once every chunk has arrived.
    pub fn get_all(&self) -> (r: Option<&Vec<u8>>)
        ensures
            (forall|i: int| 0 <= i < self.present@.len() ==> #[trigger] self.present@[i]) ==> r
                == Some(&self.data),
            r is Some ==> r.unwrap()@ == self.data@,
    {
        if self.is_full() {
            Some(&self.data)
        } else {
            None
        }
    }
}

/// A fully received file: its bytes never change, and the store holds it
/// under the digest of exactly these bytes.
pub struct FullFile {
    pub data: Vec<u8>,
    pub enc_key: EncKey,
}

impl FullFile {
    /// Wraps received bytes with the key that encrypts them in flight.
    pub fn new(data: Vec<u8>, enc_key: EncKey) -> (r: Self)
        ensures
            r.data == data,
            r.enc_key == enc_key,
    {
        FullFile { data, enc_key }
    }

    /// The bytes of one chunk: a full span, or the shorter tail.
    pub fn get_chunk(&self, chunki: usize) -> (r: Vec<u8>)
        requires
            chunki * FILE_CHUNK_SIZE < self.data@.len(),
        ensures
            r@ == self.data@.subrange(
                chunki * FILE_CHUNK_SIZE,
                if (chunki + 1) * FILE_CHUNK_SIZE <= self.data@.len() {
                    chunki * FILE_CHUNK_SIZE + FILE_CHUNK_SIZE
                } else {
                    self.data@.len() as int
                },
            ),
    {
        let len = self.data.len();
        proof {
            assert(chunki * FILE_CHUNK_SIZE < len);
        }
        let sl: usize = chunki * FILE_CHUNK_SIZE;
        let span: usize = if len - sl >= FILE_CHUNK_SIZE {
            FILE_CHUNK_SIZE
        } else {
            len - sl
        };
        crate::wire::copy_range(self.data.as_slice(), sl, span)
    }

    /// One chunk, zero-padded to full size and encrypted under the file's
    /// key with a fresh nonce.
    pub fn get_enc_chunk(&self, chunki: usize) -> (r: Encrypted<FileChunk>)
        requires
            chunki * FILE_CHUNK_SIZE < self.data@.len(),
        ensures
            exists|c: FileChunk|
                #[trigger] r.decrypts_to(self.enc_key, c) && c.0@ == padded_chunk_bytes(
                    self.data@,
                    chunki as int,
                ),
    {
        let len = self.data.len();
        proof {
            assert(chunki * FILE_CHUNK_SIZE < len);
        }
        let sl: usize = chunki * FILE_CHUNK_SIZE;
        let mut padded: Vec<u8> = Vec::new();
        let mut i: usize = 0;
        #[verifier::loop_isolation(false)]
        while i < FILE_CHUNK_SIZE
            invariant
                i <= FILE_CHUNK_SIZE,
                padded@ =~= padded_chunk_bytes(self.data@, chunki as int).take(i as int),
            decreases FILE_CHUNK_SIZE - i,
        {
            if i < len - sl {
                padded.push(self.data[sl + i]);
            } else {
                padded.push(0);
            }
            assert(padded@ =~= padded_chunk_bytes(self.data@, chunki as int).take(i + 1 as int));
            i += 1;
        }
        proof {
            assert(padded@ =~= padded_chunk_bytes(self.data@, chunki as int));
        }
        let fc = FileChunk(crate::wire::vec_to_array::<FILE_CHUNK_SIZE>(&padded));
        Encrypted::new(fc, &self.enc_key)
    }

    /// One encrypted chunk for a requested index off the wire: no demand
    /// on the index. Out of range yields nothing; in range, the chunk as
    /// `get_enc_chunk` gives it.
    pub fn get_enc_chunk_checked(&self, chunki: usize) -> (r: Option<Encrypted<FileChunk>>)
        ensures
            r is Some <==> chunki * FILE_CHUNK_SIZE < self.data@.len(),
            r matches Some(e) ==> exists|c: FileChunk|
                #[trigger] e.decrypts_to(self.enc_key, c) && c.0@ == padded_chunk_bytes(
                    self.data@,
                    chunki as int,
                ),
    {
        let len = self.data.len();
        let in_range: bool = chunki < len / FILE_CHUNK_SIZE + if len % FILE_CHUNK_SIZE == 0 {
            0
        } else {
            1
        };
        proof {
            let c = FILE_CHUNK_SIZE as int;
            let l = len as int;
            assert((chunki as int) * c < l <==> (chunki as int) < l / c + if l % c == 0 {
                0int
            } else {
                1int
            }) by (nonlinear_arith)
                requires
                    c > 0,
                    l >= 0,
                    chunki >= 0,
            ;
        }
        if in_range {
            Some(self.get_enc_chunk(chunki))
        } else {
            None
        }
    }

    /// The whole file.
    pub fn get_all(&self) -> (r: &Vec<u8>)
        ensures
            r@ == self.data@,
    {
        &self.data
    }
}

/// One chunk's bytes, zero-padded to the full chunk size.
pub open spec fn padded_chunk_bytes(data: Seq<u8>, chunki: int) -> Seq<u8> {
    Seq::new(
        FILE_CHUNK_SIZE as nat,
        |i: int|
            if chunki * FILE_CHUNK_SIZE + i < data.len() {
                data[chunki * FILE_CHUNK_SIZE + i]
            } else {
                0u8
            },
    )
}

/// A hash has a fully received entry.
pub open spec fn full_exists(s: Seq<(FileHash, FullFile)>, h: FileHash) -> bool {
    exists|i: int| 0 <= i < s.len() && s[i].0 == h
}

/// A hash has a partial entry.
pub open spec fn parts_exists(s: Seq<(FileHash, FileParts)>, h: FileHash) -> bool {
    exists|i: int| 0 <= i < s.len() && s[i].0 == h
}

/// What taking in one chunk does to the store, for the partial entry
/// standing at index `i` under `hash`: the entry advances exactly as the
/// per-file intake says; a still-incomplete entry stays in place and the
/// chunk is acknowledged; a completed entry leaves the partial side and
/// is promoted exactly when its bytes hash to its key, while a completed
/// entry whose bytes mismatch is discarded and the failure reported.
pub open spec fn intake_ok(
    pre: FileStore,
    post: FileStore,
    hash: FileHash,
    chunki: int,
    chunk: Encrypted<FileChunk>,
    r: Option<bool>,
    i: int,
) -> bool {
    exists|fp2: FileParts|
        {
            &&& #[trigger] chunk_applied(&pre.parts@[i].1, &fp2, chunki, chunk)
            &&& match r {
                Some(true) => {
                    &&& parts_full(&fp2)
                    &&& blake3_of(fp2.data@) == hash.bytes@
                    &&& post.parts@ == pre.parts@.remove(i)
                    &&& (full_exists(pre.full@, hash) ==> post.full == pre.full)
                    &&& (!full_exists(pre.full@, hash) ==> post.full@.len() == pre.full@.len() + 1
                        && post.full@.subrange(0, pre.full@.len() as int) == pre.full@
                        && post.full@.last().0 == hash && post.full@.last().1.data@ == fp2.data@
                        && post.full@.last().1.enc_key == fp2.enc_key)
                },
                Some(false) => {
                    &&& !parts_full(&fp2)
                    &&& post.full == pre.full
                    &&& post.parts@ == pre.parts@.update(i, (hash, fp2))
                },
                None => {
                    &&& parts_full(&fp2)
                    &&& blake3_of(fp2.data@) != hash.bytes@
                    &&& post.parts@ == pre.parts@.remove(i)
                    &&& post.full == pre.full
                },
            }
        }
}

/// The chunked store: files still being received and files fully
/// received, each keyed by the digest of its plaintext. A fully received
/// entry's bytes never change, and always hash to the key they stand
/// under.
pub struct FileStore {
    pub parts: Vec<(FileHash, FileParts)>,
    pub full: Vec<(FileHash, FullFile)>,
}

impl FileStore {
    /// One entry per hash on both sides, partial entries well formed, and
    /// every fully received entry's bytes hashing to its key.
    pub open spec fn wf(&self) -> bool {
        &&& (forall|i: int, j: int|
            0 <= i < j < self.parts@.len() ==> (#[trigger] self.parts@[i]).0 != (
            #[trigger] self.parts@[j]).0)
        &&& (forall|i: int, j: int|
            0 <= i < j < self.full@.len() ==> (#[trigger] self.full@[i]).0 != (
            #[trigger] self.full@[j]).0)
        &&& (forall|i: int| 0 <= i < self.parts@.len() ==> (#[trigger] self.parts@[i]).1.wf())
        &&& (forall|i: int|
            0 <= i < self.full@.len() ==> blake3_of((#[trigger] self.full@[i]).1.data@)
                == self.full@[i].0.bytes@)
    }

    /// An empty store.
    pub fn new() -> (r: Self)
        ensures
            r.wf(),
            r.parts@.len() == 0,
            r.full@.len() == 0,
    {
        FileStore { parts: Vec::new(), full: Vec::new() }
    }

    /// The index of a hash's fully received entry, where one stands.
    fn find_full(&self, h: &FileHash) -> (r: Option<usize>)
        ensures
            (match r {
                Some(i) => i < self.full@.len() && self.full@[i as int].0 == *h,
                None => !full_exists(self.full@, *h),
            }),
    {
        let n = self.full.len();
        let mut i: usize = 0;
        #[verifier::loop_isolation(false)]
        while i < n
            invariant
                i <= n,
                forall|j: int| 0 <= j < i ==> (#[trigger] self.full@[j]).0 != *h,
            decreases n - i,
        {
            if self.full[i].0.equals(h) {
                return Some(i);
            }
            i += 1;
        }
        None
    }

    /// The index of a hash's partial entry, where one stands.
    fn find_parts(&self, h: &FileHash) -> (r: Option<usize>)
        ensures
            (match r {
                Some(i) => i < self.parts@.len() && self.parts@[i as int].0 == *h,
                None => !parts_exists(self.parts@, *h),
            }),
    {
        let n = self.parts.len();
        let mut i: usize = 0;
        #[verifier::loop_isolation(false)]
        while i < n
            invariant
                i <= n,
                forall|j: int| 0 <= j < i ==> (#[trigger] self.parts@[j]).0 != *h,
            decreases n - i,
        {
            if self.parts[i].0.equals(h) {
                return Some(i);
            }
            i += 1;
        }
        None
    }

    /// Stores bytes received whole: they are keyed by their own digest and
    /// sealed under a fresh random key. An entry already standing under
    /// that digest is kept as it is.
    pub fn add_done(&mut self, data: Vec<u8>) -> (r: FileHash)
        requires
            old(self).wf(),
        ensures
            final(self).wf(),
            r.bytes@ == blake3_of(data@),
            full_exists(final(self).full@, r),
            final(self).parts == old(self).parts,
            full_exists(old(self).full@, r) ==> final(self).full == old(self).full,
            !full_exists(old(self).full@, r) ==> final(self).full@.len() == old(self).full@.len()
                + 1 && final(self).full@.subrange(0, old(self).full@.len() as int) == old(self).full@ && final(self).full@.last().0 == r && final(self).full@.last().1.data@
                == data@,
    {
        let hash = blake3_hash(data.as_slice());
        match self.find_full(&hash) {
            Some(i) => {
                proof {
                    assert(full_exists(self.full@, hash)) by {
                        assert(self.full@[i as int].0 == hash);
                    }
                }
                hash
            },
            None => {
                let ghost pre = self.full@;
                let ff = FullFile::new(data, EncKey::random());
                self.full.push((hash, ff));
                proof {
                    assert(final(self).full@.subrange(0, pre.len() as int) =~= pre);
                    assert forall|i: int, j: int|
                        0 <= i < j < self.full@.len() implies (#[trigger] self.full@[i]).0 != (
                    #[trigger] self.full@[j]).0 by {
                        if j < pre.len() {
                            assert(pre[i] == self.full@[i] && pre[j] == self.full@[j]);
                        } else {
                            assert(self.full@[j].0 == hash);
                            assert(!full_exists(pre, hash));
                        }
                    }
                    assert(full_exists(self.full@, hash)) by {
                        assert(self.full@[self.full@.len() - 1].0 == hash);
                    }
                }
                hash
            },
        }
    }

    /// Registers a file to be received in chunks, with its expected size
    /// and the key its chunks are encrypted under. A partial entry already
    /// standing under that hash is kept as it is.
    pub fn add_new(&mut self, hash: FileHash, size: usize, enc_key: EncKey)
        requires
            old(self).wf(),
        ensures
            final(self).wf(),
            final(self).full == old(self).full,
            parts_exists(old(self).parts@, hash) ==> final(self).parts == old(self).parts,
            !parts_exists(old(self).parts@, hash) ==> final(self).parts@.len() == old(self).parts@.len() + 1 && final(self).parts@.subrange(0, old(self).parts@.len() as int)
                == old(self).parts@ && final(self).parts@.last().0 == hash && final(self).parts@.last().1.data@.len() == size && final(self).parts@.last().1.enc_key == enc_key
                && (forall|i: int|
                0 <= i < final(self).parts@.last().1.present@.len() ==> !(#[trigger] final(self).parts@.last().1.present@[i])),
    {
        match self.find_parts(&hash) {
            Some(_) => {},
            None => {
                let ghost pre = self.parts@;
                let fp = FileParts::new(size, enc_key);
                self.parts.push((hash, fp));
                proof {
                    assert(final(self).parts@.subrange(0, pre.len() as int) =~= pre);
                    assert forall|i: int, j: int|
                        0 <= i < j < self.parts@.len() implies (#[trigger] self.parts@[i]).0 != (
                    #[trigger] self.parts@[j]).0 by {
                        if j < pre.len() {
                            assert(pre[i] == self.parts@[i] && pre[j] == self.parts@[j]);
                        } else {
                            assert(self.parts@[j].0 == hash);
                            assert(!parts_exists(pre, hash));
                        }
                    }
                }
            },
        }
    }

    /// Takes in one encrypted chunk. Where no partial entry stands, the
    /// chunk is refused. Where the entry becomes complete, its bytes are
    /// hashed: on a match with the key it stands under, the file is
    /// promoted to fully received; on a mismatch, the partial entry is
    /// discarded and the failure reported. Promoted entries are appended:
    /// what was fully received before stays exactly as it was.
    pub fn add_enc_chunk(&mut self, hash: FileHash, chunki: usize, piece: Encrypted<FileChunk>)
        -> (r: Option<bool>)
        requires
            old(self).wf(),
            piece.data@.len() <= crate::crypto::MAX_KEYSTREAM_LEN as int,
            forall|i: int|
                0 <= i < old(self).parts@.len() && (#[trigger] old(self).parts@[i]).0 == hash
                    ==> chunki < old(self).parts@[i].1.present@.len(),
        ensures
            final(self).wf(),
            final(self).full@.subrange(0, old(self).full@.len() as int) == old(self).full@,
            !parts_exists(old(self).parts@, hash) ==> *final(self) == *old(self) && r == None::<
                bool,
            >,
            forall|i: int|
                0 <= i < old(self).parts@.len() && (#[trigger] old(self).parts@[i]).0 == hash
                    ==> intake_ok(*old(self), *final(self), hash, chunki as int, piece, r, i),
    {
        proof {
            assert(old(self).full@.subrange(0, old(self).full@.len() as int) =~= old(self).full@);
        }
        let idx = match self.find_parts(&hash) {
            None => {
                return None;
            },
            Some(i) => i,
        };
        proof {
            assert forall|i: int|
                0 <= i < old(self).parts@.len() && (#[trigger] old(self).parts@[i]).0 == hash
                implies i == idx as int by {
                if i != idx as int {
                    assert(old(self).parts@[i].0 != old(self).parts@[idx as int].0);
                }
            }
        }
        let ghost pre_parts = self.parts@;
        let (entry_hash, mut fp) = self.parts.remove(idx);
        fp.add_enc_chunk(chunki, piece);
        let ghost fp2 = fp;
        if !fp.is_full() {
            self.parts.insert(idx, (entry_hash, fp));
            proof {
                assert(self.parts@ =~= pre_parts.update(idx as int, (entry_hash, fp2)));
                assert forall|i: int, j: int|
                    0 <= i < j < self.parts@.len() implies (#[trigger] self.parts@[i]).0 != (
                #[trigger] self.parts@[j]).0 by {
                    assert(pre_parts[i].0 == self.parts@[i].0);
                    assert(pre_parts[j].0 == self.parts@[j].0);
                }
                assert(chunk_applied(&pre_parts[idx as int].1, &fp2, chunki as int, piece));
                assert(intake_ok(
                    *old(self),
                    *self,
                    hash,
                    chunki as int,
                    piece,
                    Some(false),
                    idx as int,
                ));
            }
            return Some(false);
        }
        // every chunk arrived: verify the assembled bytes against the key
        let assembled_hash = blake3_hash(fp.data.as_slice());
        if !assembled_hash.equals(&hash) {
            proof {
                lemma_remove_keeps_distinct(pre_parts, idx as int);
                if blake3_of(fp2.data@) == hash.bytes@ {
                    assert(assembled_hash.bytes =~= hash.bytes);
                }
                assert(chunk_applied(&pre_parts[idx as int].1, &fp2, chunki as int, piece));
                assert(intake_ok(
                    *old(self),
                    *self,
                    hash,
                    chunki as int,
                    piece,
                    None::<bool>,
                    idx as int,
                ));
            }
            return None;
        }
        proof {
            lemma_remove_keeps_distinct(pre_parts, idx as int);
        }
        match self.find_full(&hash) {
            Some(fi) => {
                proof {
                    assert(full_exists(self.full@, hash)) by {
                        assert(self.full@[fi as int].0 == hash);
                    }
                    assert(chunk_applied(&pre_parts[idx as int].1, &fp2, chunki as int, piece));
                    assert(intake_ok(
                        *old(self),
                        *self,
                        hash,
                        chunki as int,
                        piece,
                        Some(true),
                        idx as int,
                    ));
                }
                Some(true)
            },
            None => {
                let ghost pre_full = self.full@;
                let ff = FullFile::new(fp.data, fp.enc_key);
                self.full.push((hash, ff));
                proof {
                    assert(final(self).full@.subrange(0, pre_full.len() as int) =~= pre_full);
                    assert forall|i: int, j: int|
                        0 <= i < j < self.full@.len() implies (#[trigger] self.full@[i]).0 != (
                    #[trigger] self.full@[j]).0 by {
                        if j < pre_full.len() {
                            assert(pre_full[i] == self.full@[i] && pre_full[j] == self.full@[j]);
                        } else {
                            assert(self.full@[j].0 == hash);
                            assert(!full_exists(pre_full, hash));
                        }
                    }
                    assert(full_exists(self.full@, hash)) by {
                        assert(self.full@[self.full@.len() - 1].0 == hash);
                    }
                    assert(chunk_applied(&pre_parts[idx as int].1, &fp2, chunki as int, piece));
                    assert(intake_ok(
                        *old(self),
                        *self,
                        hash,
                        chunki as int,
                        piece,
                        Some(true),
                        idx as int,
                    ));
                }
                Some(true)
            },
        }
    }


    /// Takes in one file message straight off the wire: no demand on its
    /// contents. A piece index out of range for the entry, like an
    /// unknown hash, changes nothing and is dropped silently; in range,
    /// the chunk is taken in exactly as `add_enc_chunk` says.
    pub fn take_chunk_message(&mut self, fm: FileMessage) -> (r: Option<bool>)
        requires
            old(self).wf(),
        ensures
            final(self).wf(),
            final(self).full@.subrange(0, old(self).full@.len() as int) == old(self).full@,
            !parts_exists(old(self).parts@, fm.hash) ==> *final(self) == *old(self) && r == None::<
                bool,
            >,
            forall|i: int|
                0 <= i < old(self).parts@.len() && (#[trigger] old(self).parts@[i]).0 == fm.hash
                    && fm.piece >= old(self).parts@[i].1.present@.len() ==> *final(self) == *old(
                    self,
                ) && r == None::<bool>,
            forall|i: int|
                0 <= i < old(self).parts@.len() && (#[trigger] old(self).parts@[i]).0 == fm.hash
                    && fm.piece < old(self).parts@[i].1.present@.len() ==> exists|
                    c2: Encrypted<FileChunk>,
                |
                    c2.data@ == fm.data.data@ && c2.nonce == fm.data.nonce && #[trigger] intake_ok(
                        *old(self),
                        *final(self),
                        fm.hash,
                        fm.piece as int,
                        c2,
                        r,
                        i,
                    ),
    {
        proof {
            assert(old(self).full@.subrange(0, old(self).full@.len() as int) =~= old(self).full@);
        }
        let idx = match self.find_parts(&fm.hash) {
            None => {
                return None;
            },
            Some(i) => i,
        };
        proof {
            assert forall|i: int|
                0 <= i < self.parts@.len() && (#[trigger] self.parts@[i]).0 == fm.hash implies i
                == idx as int by {
                if i != idx as int {
                    assert(self.parts@[i].0 != self.parts@[idx as int].0);
                }
            }
        }
        let nchunks = self.parts[idx].1.present.len();
        if fm.piece as usize >= nchunks {
            return None;
        }
        let hash = fm.hash;
        let piece_index = fm.piece as usize;
        let chunk = fm.data.into_stream();
        let ghost c2 = chunk;
        proof {
            assert(chunk.data@.len() == FILE_CHUNK_SIZE);
            assert(FILE_CHUNK_SIZE <= crate::crypto::MAX_KEYSTREAM_LEN as int);
        }
        let r = self.add_enc_chunk(hash, piece_index, chunk);
        r
    }

    /// The fully received file under a hash, where one stands: its bytes
    /// hash to exactly that key.
    pub fn get_file(&self, hash: &FileHash) -> (r: Option<&FullFile>)
        requires
            self.wf(),
        ensures
            (match r {
                Some(ff) => full_exists(self.full@, *hash) && blake3_of(ff.data@) == hash.bytes@,
                None => !full_exists(self.full@, *hash),
            }),
    {
        match self.find_full(hash) {
            Some(i) => Some(&self.full[i].1),
            None => None,
        }
    }
}

/// Dropping one entry keeps the remaining keys pairwise distinct.
proof fn lemma_remove_keeps_distinct(s: Seq<(FileHash, FileParts)>, idx: int)
    requires
        0 <= idx < s.len(),
        forall|i: int, j: int|
            0 <= i < j < s.len() ==> (#[trigger] s[i]).0 != (#[trigger] s[j]).0,
    ensures
        forall|i: int, j: int|
            0 <= i < j < s.remove(idx).len() ==> (#[trigger] s.remove(idx)[i]).0 != (
            #[trigger] s.remove(idx)[j]).0,
{
    let t = s.remove(idx);
    assert forall|i: int, j: int| 0 <= i < j < t.len() implies (#[trigger] t[i]).0 != (
    #[trigger] t[j]).0 by {
        let i0 = if i < idx { i } else { i + 1 };
        let j0 = if j < idx { j } else { j + 1 };
        assert(t[i] == s[i0] && t[j] == s[j0]);
        assert(s[i0].0 != s[j0].0);
    }
}

} // verus!
