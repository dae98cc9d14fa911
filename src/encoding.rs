//! The binary layout of a stored tree, all integers little-endian:
//! `[file size: u32][piece count: u32][content][tree buffer: the rest]`.
use vstd::prelude::*;
use vstd::slice::{slice_subrange, slice_to_vec};
use crate::merkle::{FileMerkleTree, MerkleError};

verus! {

/// The four little-endian bytes of `x`.
pub open spec fn le_bytes(x: u32) -> Seq<u8> {
    seq![
        (x % 256) as u8,
        ((x / 256) % 256) as u8,
        ((x / 65536) % 256) as u8,
        ((x / 16777216) % 256) as u8,
    ]
}

/// The `u32` stored little-endian in `b[at..at + 4]`.
pub open spec fn read_le(b: Seq<u8>, at: int) -> nat {
    (b[at] + 256 * b[at + 1] + 65536 * b[at + 2] + 16777216 * b[at + 3]) as nat
}

/// The encoding of a file, its tree buffer and its piece count.
pub open spec fn encoding(file: Seq<u8>, tree: Seq<u8>, pieces: u32) -> Seq<u8> {
    le_bytes(file.len() as u32) + le_bytes(pieces) + file + tree
}

/// What `b` decodes to: the content, the tree buffer and the piece count, or
/// nothing when `b` is shorter than its header or than the size it declares.
pub open spec fn decoded(b: Seq<u8>) -> Option<(Seq<u8>, Seq<u8>, u32)> {
    if b.len() < 8 {
        None
    } else {
        let size = read_le(b, 0) as int;
        if b.len() - 8 < size {
            None
        } else {
            Some((b.subrange(8, 8 + size), b.subrange(8 + size, b.len() as int), read_le(b, 4) as u32))
        }
    }
}

proof fn lemma_read_le_bytes(x: u32)
    ensures
        read_le(le_bytes(x), 0) == x,
{
    let b = le_bytes(x);
    let q0 = x / 256;
    let q1 = q0 / 256;
    let q2 = q1 / 256;
    assert(x == x % 256 + 256 * q0);
    assert(q0 == q0 % 256 + 256 * q1);
    assert(q1 == q1 % 256 + 256 * q2);
    assert(q2 < 256);
    assert(x / 65536 == q1) by {
        vstd::arithmetic::div_mod::lemma_div_denominator(x as int, 256, 256);
    }
    assert(x / 16777216 == q2) by {
        vstd::arithmetic::div_mod::lemma_div_denominator(x as int, 256, 256);
        vstd::arithmetic::div_mod::lemma_div_denominator(x as int, 65536, 256);
    }
}

/// Appends the four little-endian bytes of `x`.
fn push_le(out: &mut Vec<u8>, x: u32)
    ensures
        final(out)@ == old(out)@ + le_bytes(x),
{
    out.push((x % 256) as u8);
    out.push(((x / 256) % 256) as u8);
    out.push(((x / 65536) % 256) as u8);
    out.push(((x / 16777216) % 256) as u8);
    assert(final(out)@ =~= old(out)@ + le_bytes(x));
}

/// The `u32` stored little-endian at `b[at..at + 4]`.
fn read_u32_le(b: &[u8], at: usize) -> (r: u32)
    requires
        at + 4 <= b@.len(),
    ensures
        r == read_le(b@, at as int),
{
    b[at] as u32 + 256 * (b[at + 1] as u32) + 65536 * (b[at + 2] as u32) + 16777216 * (b[at + 3] as u32)
}

impl FileMerkleTree {
    /// The bytes of this tree in the stored layout.
    pub fn encode(&self) -> (r: Vec<u8>)
        requires
            self.file_bytes@.len() <= u32::MAX,
        ensures
            r@ == encoding(self.file_bytes@, self.merkle_tree@, self.pieces),
    {
        let mut r: Vec<u8> = Vec::new();
        push_le(&mut r, self.file_bytes.len() as u32);
        push_le(&mut r, self.pieces);
        let mut file = slice_to_vec(self.file_bytes.as_slice());
        r.append(&mut file);
        let mut tree = slice_to_vec(self.merkle_tree.as_slice());
        r.append(&mut tree);
        r
    }

    /// Reads a tree from the stored layout. The tree buffer is whatever
    /// follows the content; it is not checked against the content.
    pub fn decode(bytes: &[u8]) -> (r: Result<FileMerkleTree, MerkleError>)
        ensures
            match r {
                Ok(t) => decoded(bytes@) == Some((t.file_bytes@, t.merkle_tree@, t.pieces)),
                Err(e) => decoded(bytes@) is None && e == MerkleError::TruncatedInput,
            },
    {
        let n = bytes.len();
        if n < 8 {
            return Err(MerkleError::TruncatedInput);
        }
        let size = read_u32_le(bytes, 0) as usize;
        let pieces = read_u32_le(bytes, 4);
        if n - 8 < size {
            return Err(MerkleError::TruncatedInput);
        }
        let file_bytes = slice_to_vec(slice_subrange(bytes, 8, 8 + size));
        let merkle_tree = slice_to_vec(slice_subrange(bytes, 8 + size, n));
        Ok(FileMerkleTree { file_bytes, merkle_tree, pieces })
    }
}

/// Decoding the encoding of a tree gives back its content, its tree buffer
/// and its piece count, byte for byte.
pub proof fn lemma_decode_encode(file: Seq<u8>, tree: Seq<u8>, pieces: u32)
    requires
        file.len() <= u32::MAX,
    ensures
        decoded(encoding(file, tree, pieces)) == Some((file, tree, pieces)),
{
    let e = encoding(file, tree, pieces);
    let n = file.len() as u32;
    lemma_read_le_bytes(n);
    lemma_read_le_bytes(pieces);
    assert(e.subrange(0, 4) =~= le_bytes(n));
    assert(e.subrange(4, 8) =~= le_bytes(pieces));
    assert(read_le(e, 0) == read_le(le_bytes(n), 0));
    assert(read_le(e, 4) == read_le(le_bytes(pieces), 0));
    assert(e.subrange(8, 8 + file.len() as int) =~= file);
    assert(e.subrange(8 + file.len() as int, e.len() as int) =~= tree);
}

} // verus!
