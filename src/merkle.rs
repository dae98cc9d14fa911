//! The Merkle tree over a file's 1 KiB chunks: its mathematical model,
//! construction, inclusion proofs and their verification.
use vstd::prelude::*;
use vstd::slice::{slice_subrange, slice_to_vec};
use crate::digest::{sha256_of, sha2_256, same_bytes, HASH_SIZE};

verus! {

/// Files are split into chunks of 1 KiB.
pub const CHUNK_SIZE: usize = 1024;

/// Number of chunks of a file of `len` bytes: `ceil(len / 1024)`.
pub open spec fn piece_count(len: nat) -> nat {
    ((len + 1023) / 1024) as nat
}

/// Whether `w` is a power of two.
pub open spec fn is_pow2(w: nat) -> bool
    decreases w,
{
    if w <= 1 {
        w == 1
    } else {
        w % 2 == 0 && is_pow2(w / 2)
    }
}

/// The smallest power of two that is at least `n` (1 when `n` is 0 or 1).
pub open spec fn leaf_width(n: nat) -> nat
    decreases n,
{
    if n <= 1 {
        1
    } else {
        2 * leaf_width(((n + 1) / 2) as nat)
    }
}

/// Chunk `i` of `c`: 1024 bytes, or what is left of `c` for the last one.
pub open spec fn chunk(c: Seq<u8>, i: nat) -> Seq<u8> {
    let start = (i * 1024) as int;
    let end = if start + 1024 <= c.len() { start + 1024 } else { c.len() as int };
    c.subrange(start as int, end)
}

/// A chunk shorter than 1024 bytes, zero-padded to 1024 bytes for hashing.
pub open spec fn padded(ch: Seq<u8>) -> Seq<u8> {
    if ch.len() < 1024 {
        ch + Seq::new((1024 - ch.len()) as nat, |_i: int| 0u8)
    } else {
        ch
    }
}

/// The digest that stands for a leaf beyond the last chunk: 32 zero bytes.
pub open spec fn filler() -> Seq<u8> {
    Seq::new(32, |_i: int| 0u8)
}

/// The leaf level: one digest per chunk, then fillers up to a power of two.
pub open spec fn leaf_digests(c: Seq<u8>) -> Seq<Seq<u8>> {
    Seq::new(
        leaf_width(piece_count(c.len())),
        |i: int|
            if i < piece_count(c.len()) {
                sha256_of(padded(chunk(c, i as nat)))
            } else {
                filler()
            },
    )
}

/// The level above `l`: the digest of each adjacent pair.
pub open spec fn parent_level(l: Seq<Seq<u8>>) -> Seq<Seq<u8>> {
    Seq::new(l.len() / 2, |j: int| sha256_of(l[2 * j] + l[2 * j + 1]))
}

/// All levels from `l` up to the root, lowest first.
pub open spec fn tree_levels(l: Seq<Seq<u8>>) -> Seq<Seq<u8>>
    decreases l.len(),
{
    if l.len() <= 1 {
        l
    } else {
        l + tree_levels(parent_level(l))
    }
}

/// Every node of the tree of `c`, leaves first, root last.
pub open spec fn tree_nodes(c: Seq<u8>) -> Seq<Seq<u8>> {
    tree_levels(leaf_digests(c))
}

/// The concatenation of a sequence of byte strings.
pub open spec fn join(s: Seq<Seq<u8>>) -> Seq<u8>
    decreases s.len(),
{
    if s.len() == 0 {
        Seq::empty()
    } else {
        join(s.drop_last()) + s.last()
    }
}

/// The flat tree buffer of `c`: every node's digest, leaves first, root last.
pub open spec fn tree_bytes(c: Seq<u8>) -> Seq<u8> {
    join(tree_nodes(c))
}

/// The Merkle root of `c`.
pub open spec fn merkle_root_of(c: Seq<u8>) -> Seq<u8> {
    tree_nodes(c).last()
}

/// Whether every entry of `s` has the 32 bytes of a digest.
pub open spec fn all_digests(s: Seq<Seq<u8>>) -> bool {
    forall|i: int| 0 <= i < s.len() ==> (#[trigger] s[i]).len() == 32
}

/// The position of the other node of the pair that holds node `i`.
pub open spec fn sibling(i: nat) -> nat {
    if i % 2 == 0 {
        (i + 1) as nat
    } else {
        (i - 1) as nat
    }
}

/// The siblings met on the way from node `index` of level `l` up to the root,
/// closest first.
pub open spec fn proof_path(l: Seq<Seq<u8>>, index: nat) -> Seq<Seq<u8>>
    decreases l.len(),
{
    if l.len() <= 1 {
        Seq::empty()
    } else {
        seq![l[sibling(index) as int]] + proof_path(parent_level(l), index / 2)
    }
}

/// The digest reached from `acc`, at position `index`, by combining it with
/// each proof entry in turn: on the left at an even index, on the right at
/// an odd one.
pub open spec fn fold_path(acc: Seq<u8>, index: nat, proof: Seq<Seq<u8>>) -> Seq<u8>
    decreases proof.len(),
{
    if proof.len() == 0 {
        acc
    } else {
        let next = if index % 2 == 0 {
            sha256_of(acc + proof[0])
        } else {
            sha256_of(proof[0] + acc)
        };
        fold_path(next, index / 2, proof.drop_first())
    }
}

/// The byte strings held by a vector of vectors.
pub open spec fn digests_of(v: Seq<Vec<u8>>) -> Seq<Seq<u8>> {
    v.map_values(|d: Vec<u8>| d@)
}

proof fn lemma_leaf_width_is(n: nat, w: nat)
    requires
        is_pow2(w),
        n <= w,
        w < 2 * n,
    ensures
        leaf_width(n) == w,
    decreases n,
{
    if n > 1 {
        let m = ((n + 1) / 2) as nat;
        lemma_leaf_width_is(m, w / 2);
    }
}

proof fn lemma_leaf_width_pow2(n: nat)
    ensures
        is_pow2(leaf_width(n)),
        n <= leaf_width(n),
        n >= 1 ==> leaf_width(n) < 2 * n,
    decreases n,
{
    if n > 1 {
        lemma_leaf_width_pow2(((n + 1) / 2) as nat);
    }
}

proof fn lemma_tree_levels_len(l: Seq<Seq<u8>>)
    requires
        is_pow2(l.len()),
    ensures
        tree_levels(l).len() == 2 * l.len() - 1,
    decreases l.len(),
{
    if l.len() > 1 {
        lemma_tree_levels_len(parent_level(l));
    }
}

proof fn lemma_join_push(s: Seq<Seq<u8>>, d: Seq<u8>)
    ensures
        join(s.push(d)) == join(s) + d,
{
    assert(s.push(d).drop_last() =~= s);
}

proof fn lemma_join_len(s: Seq<Seq<u8>>)
    requires
        all_digests(s),
    ensures
        join(s).len() == 32 * s.len(),
    decreases s.len(),
{
    if s.len() > 0 {
        lemma_join_len(s.drop_last());
    }
}

proof fn lemma_join_index(s: Seq<Seq<u8>>, j: int)
    requires
        all_digests(s),
        0 <= j < s.len(),
    ensures
        32 * s.len() == join(s).len(),
        join(s).subrange(32 * j, 32 * j + 32) == s[j],
    decreases s.len(),
{
    lemma_join_len(s);
    let init = s.drop_last();
    lemma_join_len(init);
    if j < s.len() - 1 {
        lemma_join_index(init, j);
        assert(join(s).subrange(32 * j, 32 * j + 32) =~= join(init).subrange(32 * j, 32 * j + 32));
    } else {
        assert(join(s).subrange(32 * j, 32 * j + 32) =~= s.last());
    }
}

/// From any node of a level whose width is a power of two, folding in the
/// node's proof path reaches the root of the levels above it.
proof fn lemma_path_reaches_root(l: Seq<Seq<u8>>, index: nat)
    requires
        is_pow2(l.len()),
        index < l.len(),
    ensures
        fold_path(l[index as int], index, proof_path(l, index)) == tree_levels(l).last(),
    decreases l.len(),
{
    if l.len() > 1 {
        let up = parent_level(l);
        let rest = proof_path(up, index / 2);
        let p = proof_path(l, index);
        let j = (index / 2) as int;
        lemma_path_reaches_root(up, index / 2);
        lemma_tree_levels_len(up);
        assert(p.drop_first() =~= rest);
        assert(2 * (index / 2) == if index % 2 == 0 { index } else { (index - 1) as nat });
        if index % 2 == 0 {
            assert(l[index as int] + p[0] == l[2 * j] + l[2 * j + 1]);
        } else {
            assert(p[0] + l[index as int] == l[2 * j] + l[2 * j + 1]);
        }
        assert(tree_levels(l).last() == tree_levels(up).last());
    }
}

/// Errors of building or decoding a tree.
#[derive(Debug, Clone, Copy, PartialEq, Eq, Structural)]
pub enum MerkleError {
    /// A tree cannot be built over an empty file.
    EmptyContent,
    /// The input is shorter than one of its fields declares.
    TruncatedInput,
}

/// A file together with the Merkle tree over its 1 KiB chunks.
#[derive(Debug, Clone, PartialEq, Eq)]
pub struct FileMerkleTree {
    /// The file's content.
    pub file_bytes: Vec<u8>,
    /// Every node's digest, level by level, leaves first and root last.
    pub merkle_tree: Vec<u8>,
    /// The number of chunks of the file.
    pub pieces: u32,
}

/// The leaf width of `n` chunks.
fn leaf_width_of(n: usize) -> (w: usize)
    requires
        1 <= n <= 0x40_0000,
    ensures
        w == leaf_width(n as nat),
        is_pow2(w as nat),
        n <= w < 2 * n,
{
    let mut w: usize = 1;
    while w < n
        invariant
            is_pow2(w as nat),
            1 <= w < 2 * n,
            n <= 0x40_0000,
        decreases 2 * n - w,
    {
        w = w * 2;
    }
    proof {
        lemma_leaf_width_is(n as nat, w as nat);
    }
    w
}

/// The 32 zero bytes that stand for a missing leaf.
fn filler_digest() -> (r: Vec<u8>)
    ensures
        r@ == filler(),
{
    let mut r: Vec<u8> = Vec::new();
    while r.len() < HASH_SIZE
        invariant
            r@.len() <= 32,
            forall|k: int| 0 <= k < r@.len() ==> r@[k] == 0u8,
        decreases 32 - r@.len(),
    {
        r.push(0u8);
    }
    assert(r@ =~= filler());
    r
}

/// The digest of a chunk, zero-padded to 1024 bytes when it is shorter.
fn chunk_digest(ch: &[u8]) -> (r: Vec<u8>)
    ensures
        r@ == sha256_of(padded(ch@)),
        r@.len() == 32,
{
    if ch.len() >= CHUNK_SIZE {
        sha2_256(ch)
    } else {
        let mut buf = slice_to_vec(ch);
        while buf.len() < CHUNK_SIZE
            invariant
                ch@.len() <= buf@.len() <= 1024,
                buf@.subrange(0, ch@.len() as int) == ch@,
                forall|k: int| ch@.len() <= k < buf@.len() ==> buf@[k] == 0u8,
            decreases 1024 - buf@.len(),
        {
            let ghost prev = buf@;
            buf.push(0u8);
            assert(buf@.subrange(0, ch@.len() as int) =~= prev.subrange(0, ch@.len() as int));
        }
        assert(buf@ =~= padded(ch@));
        sha2_256(buf.as_slice())
    }
}

impl FileMerkleTree {
    /// A tree built from its file: the content is kept, the piece count is
    /// that of the content, and every node holds a 32-byte digest.
    pub open spec fn well_formed(&self) -> bool {
        &&& 0 < self.file_bytes@.len() <= u32::MAX
        &&& self.pieces == piece_count(self.file_bytes@.len())
        &&& all_digests(tree_nodes(self.file_bytes@))
        &&& self.merkle_tree@ == tree_bytes(self.file_bytes@)
    }

    /// Builds the Merkle tree of `file_bytes` and keeps the content.
    /// An empty file has no chunk to prove and is refused.
    pub fn new(file_bytes: Vec<u8>) -> (r: Result<FileMerkleTree, MerkleError>)
        requires
            file_bytes@.len() <= u32::MAX,
        ensures
            match r {
                Ok(t) => {
                    &&& file_bytes@.len() > 0
                    &&& t.file_bytes@ == file_bytes@
                    &&& t.pieces == piece_count(file_bytes@.len())
                    &&& t.pieces >= 1
                    &&& t.merkle_tree@ == tree_bytes(file_bytes@)
                    &&& t.well_formed()
                },
                Err(e) => file_bytes@.len() == 0 && e == MerkleError::EmptyContent,
            },
    {
        let len = file_bytes.len();
        if len == 0 {
            return Err(MerkleError::EmptyContent);
        }
        let pieces: usize = len / CHUNK_SIZE + if len % CHUNK_SIZE == 0 { 0 } else { 1 };
        assert(pieces == piece_count(len as nat));
        let width = leaf_width_of(pieces);
        let ghost c = file_bytes@;
        let ghost leaves = leaf_digests(c);
        let ghost full = tree_nodes(c);
        let ghost mut nodes: Seq<Seq<u8>> = Seq::empty();
        let mut tree: Vec<u8> = Vec::new();
        let mut i: usize = 0;
        while i < pieces
            invariant
                c == file_bytes@,
                len == c.len(),
                pieces == piece_count(len as nat),
                1 <= pieces <= 0x40_0000,
                width == leaves.len(),
                pieces <= width,
                leaves == leaf_digests(c),
                i <= pieces,
                nodes == leaves.take(i as int),
                all_digests(nodes),
                tree@ == join(nodes),
            decreases pieces - i,
        {
            let start = i * CHUNK_SIZE;
            let end = if i + 1 == pieces { len } else { start + CHUNK_SIZE };
            assert(chunk(c, i as nat) == c.subrange(start as int, end as int));
            let mut h = chunk_digest(slice_subrange(file_bytes.as_slice(), start, end));
            proof {
                lemma_join_push(nodes, h@);
                nodes = nodes.push(h@);
                assert(nodes =~= leaves.take(i + 1));
            }
            tree.append(&mut h);
            i += 1;
        }
        while i < width
            invariant
                leaves == leaf_digests(c),
                pieces == piece_count(c.len()),
                width == leaves.len(),
                pieces <= i <= width,
                nodes == leaves.take(i as int),
                all_digests(nodes),
                tree@ == join(nodes),
            decreases width - i,
        {
            let mut h = filler_digest();
            proof {
                lemma_join_push(nodes, h@);
                nodes = nodes.push(h@);
                assert(nodes =~= leaves.take(i + 1));
            }
            tree.append(&mut h);
            i += 1;
        }
        assert(nodes =~= leaves);
        let ghost mut level = leaves;
        let mut pos: usize = 0;
        let mut w: usize = width;
        while w > 1
            invariant
                is_pow2(w as nat),
                1 <= w <= width,
                width < 0x80_0000,
                pos + 2 * w == 2 * width,
                full == tree_levels(leaves),
                level.len() == w,
                nodes.len() == pos + w,
                level == nodes.subrange(pos as int, pos + w),
                nodes.subrange(0, pos as int) + tree_levels(level) == full,
                all_digests(nodes),
                tree@ == join(nodes),
            decreases w,
        {
            let ghost base = nodes;
            let half = w / 2;
            let mut k: usize = 0;
            while k < half
                invariant
                    half == w / 2,
                    w % 2 == 0,
                    pos + 2 * w == 2 * width,
                    width < 0x80_0000,
                    level.len() == w,
                    base.len() == pos + w,
                    level == base.subrange(pos as int, pos + w),
                    k <= half,
                    nodes == base + parent_level(level).take(k as int),
                    all_digests(nodes),
                    tree@ == join(nodes),
                decreases half - k,
            {
                let a = (pos + 2 * k) * HASH_SIZE;
                proof {
                    let j = pos + 2 * k;
                    lemma_join_index(nodes, j);
                    lemma_join_index(nodes, j + 1);
                    assert(nodes[j] == level[2 * k]);
                    assert(nodes[j + 1] == level[2 * k + 1]);
                    assert(tree@.subrange(a as int, a + 64) =~= tree@.subrange(a as int, a + 32)
                        + tree@.subrange(a + 32, a + 64));
                }
                let mut h = sha2_256(slice_subrange(tree.as_slice(), a, a + 2 * HASH_SIZE));
                proof {
                    lemma_join_push(nodes, h@);
                    nodes = nodes.push(h@);
                    assert(nodes =~= base + parent_level(level).take(k + 1));
                }
                tree.append(&mut h);
                k += 1;
            }
            proof {
                let up = parent_level(level);
                assert(parent_level(level).take(half as int) =~= up);
                assert(nodes.subrange(pos + w, pos + w + half) =~= up);
                assert(nodes.subrange(0, pos + w) =~= nodes.subrange(0, pos as int) + level);
                assert(nodes.subrange(0, pos as int) =~= base.subrange(0, pos as int));
                assert(tree_levels(level) == level + tree_levels(up));
                assert(nodes.subrange(0, pos + w) + tree_levels(up) =~= nodes.subrange(0, pos as int)
                    + tree_levels(level));
                level = up;
            }
            pos = pos + w;
            w = half;
        }
        proof {
            assert(tree_levels(level) == level);
            assert(nodes =~= nodes.subrange(0, pos as int) + level);
        }
        Ok(FileMerkleTree { file_bytes, merkle_tree: tree, pieces: pieces as u32 })
    }

    /// The Merkle root: the last 32 bytes of the tree buffer.
    pub fn merkle_root(&self) -> (r: &[u8])
        requires
            self.merkle_tree@.len() >= 32 || self.well_formed(),
        ensures
            self.merkle_tree@.len() >= 32,
            r@ == self.merkle_tree@.subrange(self.merkle_tree@.len() - 32, self.merkle_tree@.len() as int),
            self.well_formed() ==> r@ == merkle_root_of(self.file_bytes@) && r@.len() == 32,
    {
        let n = self.merkle_tree.len();
        proof {
            if self.well_formed() {
                lemma_tree_ends_with_root(*self);
            }
        }
        slice_subrange(self.merkle_tree.as_slice(), n - HASH_SIZE, n)
    }

    /// The content of chunk `position`.
    fn file_chunk_at(&self, position: u32) -> (r: &[u8])
        requires
            self.well_formed(),
            position < self.pieces,
        ensures
            r@ == chunk(self.file_bytes@, position as nat),
    {
        let len = self.file_bytes.len();
        let start = position as usize * CHUNK_SIZE;
        let end = if position == self.pieces - 1 { len } else { start + CHUNK_SIZE };
        slice_subrange(self.file_bytes.as_slice(), start, end)
    }

    /// The proof path of leaf `position`, read from the tree buffer.
    fn find_proof(&self, position: usize) -> (proof: Vec<Vec<u8>>)
        requires
            self.well_formed(),
            position < self.pieces,
        ensures
            digests_of(proof@) == proof_path(leaf_digests(self.file_bytes@), position as nat),
    {
        let ghost c = self.file_bytes@;
        let ghost leaves = leaf_digests(c);
        let ghost full = tree_nodes(c);
        let width = leaf_width_of(self.pieces as usize);
        proof {
            lemma_tree_levels_len(leaves);
            lemma_join_len(full);
        }
        let mut proof: Vec<Vec<u8>> = Vec::new();
        let mut index: usize = position;
        let mut pos: usize = 0;
        let mut w: usize = width;
        let ghost mut level = leaves;
        while w > 1
            invariant
                self.well_formed(),
                c == self.file_bytes@,
                full == tree_nodes(c),
                full.len() == 2 * width - 1,
                width < 0x80_0000,
                is_pow2(w as nat),
                1 <= w <= width,
                pos + 2 * w == 2 * width,
                level.len() == w,
                index < w,
                full.subrange(pos as int, full.len() as int) == tree_levels(level),
                digests_of(proof@) + proof_path(level, index as nat) == proof_path(leaves, position as nat),
            decreases w,
        {
            let sib: usize = if index % 2 == 0 { index + 1 } else { index - 1 };
            let a = (pos + sib) * HASH_SIZE;
            proof {
                lemma_join_index(full, pos + sib);
                assert(tree_levels(level) == level + tree_levels(parent_level(level)));
                assert(full[pos + sib] == tree_levels(level)[sib as int]);
            }
            let d = slice_to_vec(slice_subrange(self.merkle_tree.as_slice(), a, a + HASH_SIZE));
            let ghost before = proof@;
            proof.push(d);
            proof {
                let up = parent_level(level);
                assert(digests_of(proof@) =~= digests_of(before).push(d@));
                assert(proof_path(level, index as nat) =~= seq![d@] + proof_path(up, (index / 2) as nat));
                assert(digests_of(proof@) + proof_path(up, (index / 2) as nat) =~= digests_of(before)
                    + proof_path(level, index as nat));
                assert(full.subrange(pos + w, full.len() as int) =~= full.subrange(pos as int, full.len() as int).subrange(w as int, tree_levels(level).len() as int));
                assert(tree_levels(level).subrange(w as int, tree_levels(level).len() as int) =~= tree_levels(up));
                level = up;
            }
            index = index / 2;
            pos = pos + w;
            w = w / 2;
        }
        proof {
            assert(digests_of(proof@) =~= digests_of(proof@) + proof_path(level, index as nat));
        }
        proof
    }

    /// The content of chunk `piece` and its proof: the sibling digests from
    /// the leaf level up, closest first, without the root. A file of a single
    /// chunk has an empty proof: the chunk's own digest is the root.
    /// `None` when `piece` is not below the piece count.
    pub fn merkle_proof(&self, piece: u32) -> (r: Option<(Vec<u8>, Vec<Vec<u8>>)>)
        requires
            self.well_formed(),
        ensures
            match r {
                Some((content, proof)) => {
                    &&& piece < self.pieces
                    &&& content@ == chunk(self.file_bytes@, piece as nat)
                    &&& digests_of(proof@) == proof_path(leaf_digests(self.file_bytes@), piece as nat)
                },
                None => piece >= self.pieces,
            },
    {
        if piece >= self.pieces {
            return None;
        }
        let content = slice_to_vec(self.file_chunk_at(piece));
        let proof = self.find_proof(piece as usize);
        Some((content, proof))
    }
}

/// Whether `proof` shows that `content` is chunk `position` of a file of
/// `pieces` chunks whose Merkle root is `root`. The content is hashed, padded
/// to 1024 bytes when shorter, and each proof entry folded in; any proof of
/// any length is accepted as input, and a wrong one only fails to verify.
pub fn verify_proof(root: &[u8], content: &[u8], position: u32, proof: &Vec<Vec<u8>>, pieces: u32) -> (r: bool)
    ensures
        r == (position < pieces && root@ == fold_path(
            sha256_of(padded(content@)),
            position as nat,
            digests_of(proof@),
        )),
{
    if position >= pieces {
        return false;
    }
    let ghost all = digests_of(proof@);
    let ghost goal = fold_path(sha256_of(padded(content@)), position as nat, all);
    let mut acc = chunk_digest(content);
    let mut index: u32 = position;
    let mut k: usize = 0;
    assert(all.skip(0) =~= all);
    while k < proof.len()
        invariant
            k <= proof@.len(),
            all == digests_of(proof@),
            fold_path(acc@, index as nat, all.skip(k as int)) == goal,
        decreases proof@.len() - k,
    {
        let entry = slice_to_vec(proof[k].as_slice());
        let mut buf: Vec<u8>;
        let mut tail: Vec<u8>;
        if index % 2 == 0 {
            buf = acc;
            tail = entry;
        } else {
            buf = entry;
            tail = acc;
        }
        buf.append(&mut tail);
        proof {
            let rest = all.skip(k as int);
            assert(rest.drop_first() =~= all.skip(k + 1));
            assert(rest[0] == proof@[k as int]@);
        }
        acc = sha2_256(buf.as_slice());
        index = index / 2;
        k += 1;
    }
    proof {
        assert(all.skip(k as int) =~= Seq::<Seq<u8>>::empty());
    }
    same_bytes(root, acc.as_slice())
}

/// The piece count is the number of 1 KiB chunks needed to hold the
/// content, and a non-empty content has at least one.
pub proof fn lemma_piece_count(len: nat)
    ensures
        piece_count(len) * 1024 >= len,
        len > 0 ==> piece_count(len) >= 1 && (piece_count(len) - 1) * 1024 < len,
{
}

/// The tree buffer of a well-formed tree ends with its root, which has
/// 32 bytes.
pub proof fn lemma_tree_ends_with_root(t: FileMerkleTree)
    requires
        t.well_formed(),
    ensures
        t.merkle_tree@.len() >= 32,
        merkle_root_of(t.file_bytes@).len() == 32,
        t.merkle_tree@.subrange(t.merkle_tree@.len() - 32, t.merkle_tree@.len() as int)
            == merkle_root_of(t.file_bytes@),
{
    let c = t.file_bytes@;
    lemma_leaf_width_pow2(piece_count(c.len()));
    lemma_tree_levels_len(leaf_digests(c));
    lemma_join_index(tree_nodes(c), tree_nodes(c).len() - 1);
}

/// The root is determined by the content alone: two trees built from the
/// same content have the same buffer and the same 32-byte root.
pub proof fn lemma_root_determined_by_content(a: FileMerkleTree, b: FileMerkleTree)
    requires
        a.well_formed(),
        b.well_formed(),
        a.file_bytes@ == b.file_bytes@,
    ensures
        a.merkle_tree@ == b.merkle_tree@,
        merkle_root_of(a.file_bytes@) == merkle_root_of(b.file_bytes@),
        merkle_root_of(a.file_bytes@).len() == 32,
{
    lemma_tree_ends_with_root(a);
}

/// For every chunk of a non-empty content, folding the chunk's padded digest
/// through the chunk's proof path gives the content's Merkle root.
pub proof fn lemma_chunk_proof_reaches_root(c: Seq<u8>, p: nat)
    requires
        0 < c.len(),
        p < piece_count(c.len()),
    ensures
        fold_path(sha256_of(padded(chunk(c, p))), p, proof_path(leaf_digests(c), p))
            == merkle_root_of(c),
{
    let leaves = leaf_digests(c);
    lemma_leaf_width_pow2(piece_count(c.len()));
    lemma_path_reaches_root(leaves, p);
}

/// Every chunk that a well-formed tree serves, with the proof it gives,
/// passes verification against the tree's root and piece count.
pub proof fn lemma_served_chunk_verifies(t: FileMerkleTree, p: u32, content: Seq<u8>, proof: Seq<Seq<u8>>)
    requires
        t.well_formed(),
        p < t.pieces,
        content == chunk(t.file_bytes@, p as nat),
        proof == proof_path(leaf_digests(t.file_bytes@), p as nat),
    ensures
        p < t.pieces && merkle_root_of(t.file_bytes@) == fold_path(sha256_of(padded(content)), p as nat, proof),
{
    lemma_chunk_proof_reaches_root(t.file_bytes@, p as nat);
}

} // verus!
