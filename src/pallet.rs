//! The file store: trees kept by Merkle root, with the account that uploaded
//! each, and the queries served from them.
use vstd::prelude::*;
use vstd::slice::slice_to_vec;
use crate::digest::{same_bytes, HASH_SIZE};
use crate::merkle::{
    chunk, digests_of, leaf_digests, merkle_root_of, piece_count, proof_path, FileMerkleTree,
};

verus! {

/// The identifier of an account of the host ledger.
pub type AccountId = u64;

/// What the store reports after an upload.
#[derive(Debug, Clone, PartialEq, Eq)]
pub enum Event {
    /// A file was stored under its Merkle root.
    FileUploaded { who: AccountId, merkle_root: Vec<u8>, pieces: u32 },
}

/// Errors of the store.
#[derive(Debug, Clone, Copy, PartialEq, Eq, Structural)]
pub enum Error {
    /// A digest does not have the 32 bytes of a storage key.
    Unhasheable,
    /// An empty file has no chunks to serve.
    EmptyFile,
}

/// A stored file: its root, who uploaded it, and its tree.
pub struct StoredFile {
    pub merkle_root: Vec<u8>,
    pub owner: AccountId,
    pub tree: FileMerkleTree,
}

/// The store's entries by root: the uploader and the content.
pub open spec fn map_of(s: Seq<StoredFile>) -> Map<Seq<u8>, (AccountId, Seq<u8>)>
    decreases s.len(),
{
    if s.len() == 0 {
        Map::empty()
    } else {
        map_of(s.drop_last()).insert(s.last().merkle_root@, (s.last().owner, s.last().tree.file_bytes@))
    }
}

/// Whether no root is stored twice.
pub open spec fn unique_roots(s: Seq<StoredFile>) -> bool {
    forall|i: int, j: int|
        0 <= i < s.len() && 0 <= j < s.len() && i != j ==> s[i].merkle_root@ != s[j].merkle_root@
}

/// The coercion of a digest into a storage key, which has 32 bytes.
pub fn digest_key(bytes: &[u8]) -> (r: Result<Vec<u8>, Error>)
    ensures
        match r {
            Ok(k) => bytes@.len() == HASH_SIZE && k@ == bytes@,
            Err(e) => bytes@.len() != HASH_SIZE && e == Error::Unhasheable,
        },
{
    if bytes.len() != HASH_SIZE {
        return Err(Error::Unhasheable);
    }
    Ok(slice_to_vec(bytes))
}

proof fn lemma_map_of_dom(s: Seq<StoredFile>, k: Seq<u8>)
    ensures
        map_of(s).contains_key(k) <==> exists|i: int| 0 <= i < s.len() && s[i].merkle_root@ == k,
    decreases s.len(),
{
    if s.len() > 0 {
        let init = s.drop_last();
        lemma_map_of_dom(init, k);
        if map_of(s).contains_key(k) && k != s.last().merkle_root@ {
            let i = choose|i: int| 0 <= i < init.len() && init[i].merkle_root@ == k;
            assert(s[i].merkle_root@ == k);
        }
        if exists|i: int| 0 <= i < s.len() && s[i].merkle_root@ == k {
            let i = choose|i: int| 0 <= i < s.len() && s[i].merkle_root@ == k;
            if i < s.len() - 1 {
                assert(init[i].merkle_root@ == k);
            }
        }
    }
}

proof fn lemma_map_of_value(s: Seq<StoredFile>, i: int)
    requires
        unique_roots(s),
        0 <= i < s.len(),
    ensures
        map_of(s).contains_key(s[i].merkle_root@),
        map_of(s)[s[i].merkle_root@] == (s[i].owner, s[i].tree.file_bytes@),
    decreases s.len(),
{
    let init = s.drop_last();
    if i < s.len() - 1 {
        assert(unique_roots(init));
        lemma_map_of_value(init, i);
        assert(s[i].merkle_root@ != s.last().merkle_root@);
    }
}

proof fn lemma_map_of_update(s: Seq<StoredFile>, i: int, x: StoredFile)
    requires
        unique_roots(s),
        0 <= i < s.len(),
        s[i].merkle_root@ == x.merkle_root@,
    ensures
        unique_roots(s.update(i, x)),
        map_of(s.update(i, x)) == map_of(s).insert(x.merkle_root@, (x.owner, x.tree.file_bytes@)),
{
    let t = s.update(i, x);
    assert(unique_roots(t));
    let lhs = map_of(t);
    let rhs = map_of(s).insert(x.merkle_root@, (x.owner, x.tree.file_bytes@));
    assert forall|k: Seq<u8>| lhs.contains_key(k) <==> rhs.contains_key(k) by {
        lemma_map_of_dom(t, k);
        lemma_map_of_dom(s, k);
        if k != x.merkle_root@ {
            if lhs.contains_key(k) {
                let j = choose|j: int| 0 <= j < t.len() && t[j].merkle_root@ == k;
                assert(s[j].merkle_root@ == k);
            }
            if rhs.contains_key(k) {
                let j = choose|j: int| 0 <= j < s.len() && s[j].merkle_root@ == k;
                assert(t[j].merkle_root@ == k);
            }
        } else {
            assert(t[i].merkle_root@ == k);
        }
    }
    assert forall|k: Seq<u8>| lhs.contains_key(k) implies lhs[k] == rhs[k] by {
        lemma_map_of_dom(t, k);
        let j = choose|j: int| 0 <= j < t.len() && t[j].merkle_root@ == k;
        lemma_map_of_value(t, j);
        if j != i {
            lemma_map_of_value(s, j);
        }
    }
    assert(lhs =~= rhs);
}

/// The store of uploaded files.
pub struct Pallet {
    files: Vec<StoredFile>,
}

impl Pallet {
    /// The stored files by root: the uploader and the content.
    pub closed spec fn view(&self) -> Map<Seq<u8>, (AccountId, Seq<u8>)> {
        map_of(self.files@)
    }

    /// Each root is stored once, under the root of its well-formed tree.
    pub closed spec fn well_formed(&self) -> bool {
        &&& unique_roots(self.files@)
        &&& forall|i: int|
            0 <= i < self.files@.len() ==> {
                let f = #[trigger] self.files@[i];
                &&& f.tree.well_formed()
                &&& f.merkle_root@ == merkle_root_of(f.tree.file_bytes@)
                &&& f.merkle_root@.len() == 32
            }
    }

    /// An empty store.
    pub fn new() -> (r: Pallet)
        ensures
            r.well_formed(),
            r@ == Map::<Seq<u8>, (AccountId, Seq<u8>)>::empty(),
    {
        Pallet { files: Vec::new() }
    }

    /// The position of the file stored under `key`, if any.
    fn position_of(&self, key: &[u8]) -> (r: Option<usize>)
        ensures
            match r {
                Some(i) => i < self.files@.len() && self.files@[i as int].merkle_root@ == key@,
                None => forall|i: int| 0 <= i < self.files@.len() ==> self.files@[i].merkle_root@ != key@,
            },
    {
        let mut i: usize = 0;
        while i < self.files.len()
            invariant
                i <= self.files@.len(),
                forall|j: int| 0 <= j < i ==> self.files@[j].merkle_root@ != key@,
            decreases self.files@.len() - i,
        {
            if same_bytes(self.files[i].merkle_root.as_slice(), key) {
                return Some(i);
            }
            i += 1;
        }
        None
    }

    /// Stores `file_bytes`, uploaded by `who`, under its Merkle root, in
    /// place of any file stored under that root before.
    pub fn upload_file(&mut self, who: AccountId, file_bytes: Vec<u8>) -> (r: Result<Event, Error>)
        requires
            old(self).well_formed(),
            file_bytes@.len() <= u32::MAX,
        ensures
            final(self).well_formed(),
            match r {
                Ok(Event::FileUploaded { who: w, merkle_root: root, pieces }) => {
                    &&& file_bytes@.len() > 0
                    &&& w == who
                    &&& root@ == merkle_root_of(file_bytes@)
                    &&& root@.len() == HASH_SIZE
                    &&& pieces == piece_count(file_bytes@.len())
                    &&& final(self)@ == old(self)@.insert(root@, (who, file_bytes@))
                },
                Err(e) => {
                    &&& file_bytes@.len() == 0
                    &&& e == Error::EmptyFile
                    &&& final(self)@ == old(self)@
                },
            },
    {
        let ghost content = file_bytes@;
        let tree = match FileMerkleTree::new(file_bytes) {
            Ok(t) => t,
            Err(_) => return Err(Error::EmptyFile),
        };
        let key = match digest_key(tree.merkle_root()) {
            Ok(k) => k,
            Err(e) => return Err(e),
        };
        let pieces = tree.pieces;
        let event_root = slice_to_vec(key.as_slice());
        let entry = StoredFile { merkle_root: key, owner: who, tree };
        match self.position_of(entry.merkle_root.as_slice()) {
            Some(i) => {
                proof {
                    lemma_map_of_update(self.files@, i as int, entry);
                }
                self.files.set(i, entry);
            },
            None => {
                let ghost before = self.files@;
                self.files.push(entry);
                proof {
                    assert(self.files@.drop_last() =~= before);
                }
            },
        }
        Ok(Event::FileUploaded { who, merkle_root: event_root, pieces })
    }

    /// The root and piece count of every stored file, each once.
    pub fn get_files(&self) -> (r: Vec<(Vec<u8>, u32)>)
        requires
            self.well_formed(),
        ensures
            forall|i: int| #![trigger r@[i]]
                0 <= i < r@.len() ==> {
                    &&& self@.contains_key(r@[i].0@)
                    &&& r@[i].1 == piece_count(self@[r@[i].0@].1.len())
                },
            forall|k: Seq<u8>| #[trigger] self@.contains_key(k) ==> exists|i: int|
                0 <= i < r@.len() && r@[i].0@ == k,
            forall|i: int, j: int| 0 <= i < r@.len() && 0 <= j < r@.len() && i != j ==> r@[i].0@ != r@[j].0@,
    {
        let mut r: Vec<(Vec<u8>, u32)> = Vec::new();
        let mut i: usize = 0;
        while i < self.files.len()
            invariant
                self.well_formed(),
                i <= self.files@.len(),
                r@.len() == i,
                forall|j: int| 0 <= j < i ==> #[trigger] r@[j].0@ == self.files@[j].merkle_root@
                    && r@[j].1 == self.files@[j].tree.pieces,
            decreases self.files@.len() - i,
        {
            let f = &self.files[i];
            r.push((slice_to_vec(f.merkle_root.as_slice()), f.tree.pieces));
            i += 1;
        }
        proof {
            assert forall|j: int| #![trigger r@[j]] 0 <= j < r@.len() implies {
                &&& self@.contains_key(r@[j].0@)
                &&& r@[j].1 == piece_count(self@[r@[j].0@].1.len())
            } by {
                lemma_map_of_value(self.files@, j);
            }
            assert forall|k: Seq<u8>| #[trigger] self@.contains_key(k) implies exists|j: int|
                0 <= j < r@.len() && r@[j].0@ == k by {
                lemma_map_of_dom(self.files@, k);
                let j = choose|j: int| 0 <= j < self.files@.len() && self.files@[j].merkle_root@ == k;
                assert(r@[j].0@ == k);
            }
        }
        r
    }

    /// The content of chunk `position` of the file stored under
    /// `merkle_root`, with its proof. `None` when no file is stored under that
    /// root, or when `position` is not below its piece count.
    pub fn get_proof(&self, merkle_root: Vec<u8>, position: u32) -> (r: Option<(Vec<u8>, Vec<Vec<u8>>)>)
        requires
            self.well_formed(),
        ensures
            match r {
                Some((content, proof)) => {
                    let c = self@[merkle_root@].1;
                    &&& self@.contains_key(merkle_root@)
                    &&& position < piece_count(c.len())
                    &&& content@ == chunk(c, position as nat)
                    &&& digests_of(proof@) == proof_path(leaf_digests(c), position as nat)
                },
                None => !self@.contains_key(merkle_root@) || position >= piece_count(
                    self@[merkle_root@].1.len(),
                ),
            },
    {
        let key = match digest_key(merkle_root.as_slice()) {
            Ok(k) => k,
            Err(_) => {
                proof {
                    if self@.contains_key(merkle_root@) {
                        self.lemma_keys_are_digests(merkle_root@);
                    }
                }
                return None;
            },
        };
        match self.position_of(key.as_slice()) {
            Some(i) => {
                proof {
                    lemma_map_of_value(self.files@, i as int);
                }
                self.files[i].tree.merkle_proof(position)
            },
            None => {
                proof {
                    lemma_map_of_dom(self.files@, merkle_root@);
                }
                None
            },
        }
    }

    proof fn lemma_keys_are_digests(&self, k: Seq<u8>)
        requires
            self.well_formed(),
            self@.contains_key(k),
        ensures
            k.len() == 32,
    {
        lemma_map_of_dom(self.files@, k);
    }
}

} // verus!
