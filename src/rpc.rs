//! What the remote-procedure surface hands out and takes in: digests and
//! contents as lower-case hexadecimal text.
use std::marker::PhantomData;
use std::sync::Arc;
use vstd::prelude::*;
use vstd::string::StringExecFns;

verus! {

/// The hexadecimal digits, lower case.
pub open spec fn hex_digits() -> Seq<char> {
    seq!['0', '1', '2', '3', '4', '5', '6', '7', '8', '9', 'a', 'b', 'c', 'd', 'e', 'f']
}

/// Two lower-case hexadecimal digits per byte, high nibble first.
pub open spec fn hex_of(b: Seq<u8>) -> Seq<char>
    decreases b.len(),
{
    if b.len() == 0 {
        Seq::empty()
    } else {
        hex_of(b.drop_last()) + seq![hex_digits()[b.last() as int / 16], hex_digits()[b.last() as int % 16]]
    }
}

/// The value of a hexadecimal digit of either case.
pub open spec fn digit_value(c: char) -> Option<u8> {
    if '0' <= c && c <= '9' {
        Some((c as u32 - '0' as u32) as u8)
    } else if 'a' <= c && c <= 'f' {
        Some((c as u32 - 'a' as u32 + 10) as u8)
    } else if 'A' <= c && c <= 'F' {
        Some((c as u32 - 'A' as u32 + 10) as u8)
    } else {
        None
    }
}

/// `s` without a leading `0x`.
pub open spec fn strip_0x(s: Seq<char>) -> Seq<char> {
    if s.len() >= 2 && s[0] == '0' && s[1] == 'x' {
        s.subrange(2, s.len() as int)
    } else {
        s
    }
}

/// The bytes written in hexadecimal by `s`, an optional `0x` and then pairs
/// of digits of either case; nothing when the digits are odd in number or
/// any character is not a digit.
pub open spec fn dehexed(s: Seq<char>) -> Option<Seq<u8>> {
    let h = strip_0x(s);
    if h.len() % 2 == 0 && forall|i: int| 0 <= i < h.len() ==> (#[trigger] digit_value(h[i])) is Some {
        Some(
            Seq::new(
                h.len() / 2,
                |i: int| (16 * digit_value(h[2 * i])->0 + digit_value(h[2 * i + 1])->0) as u8,
            ),
        )
    } else {
        None
    }
}

/// Relies on `array_bytes::Dehexify` for `Vec<u8>`: a leading `0x` is
/// dropped, an odd number of digits or a character that is not a hex digit
/// is an error, and each pair of digits becomes one byte, high digit first.
#[verifier::external_body]
fn dehexify(hex: &str) -> (r: Option<Vec<u8>>)
    ensures
        match r {
            Some(b) => dehexed(hex@) == Some(b@),
            None => dehexed(hex@) is None,
        },
{
    <Vec<u8> as array_bytes::Dehexify>::dehexify(hex).ok()
}

/// A Merkle root given in hexadecimal, as bytes; `None` when the text is not
/// hexadecimal.
pub fn root_from_hex(merkle_root: &str) -> (r: Option<Vec<u8>>)
    ensures
        match r {
            Some(b) => dehexed(merkle_root@) == Some(b@),
            None => dehexed(merkle_root@) is None,
        },
{
    dehexify(merkle_root)
}

/// The digit for a nibble.
fn hex_digit(n: u8) -> (r: &'static str)
    requires
        n < 16,
    ensures
        r@ == seq![hex_digits()[n as int]],
{
    if n == 0 {
        proof {
            reveal_strlit("0");
        }
        "0"
    } else if n == 1 {
        proof {
            reveal_strlit("1");
        }
        "1"
    } else if n == 2 {
        proof {
            reveal_strlit("2");
        }
        "2"
    } else if n == 3 {
        proof {
            reveal_strlit("3");
        }
        "3"
    } else if n == 4 {
        proof {
            reveal_strlit("4");
        }
        "4"
    } else if n == 5 {
        proof {
            reveal_strlit("5");
        }
        "5"
    } else if n == 6 {
        proof {
            reveal_strlit("6");
        }
        "6"
    } else if n == 7 {
        proof {
            reveal_strlit("7");
        }
        "7"
    } else if n == 8 {
        proof {
            reveal_strlit("8");
        }
        "8"
    } else if n == 9 {
        proof {
            reveal_strlit("9");
        }
        "9"
    } else if n == 10 {
        proof {
            reveal_strlit("a");
        }
        "a"
    } else if n == 11 {
        proof {
            reveal_strlit("b");
        }
        "b"
    } else if n == 12 {
        proof {
            reveal_strlit("c");
        }
        "c"
    } else if n == 13 {
        proof {
            reveal_strlit("d");
        }
        "d"
    } else if n == 14 {
        proof {
            reveal_strlit("e");
        }
        "e"
    } else {
        proof {
            reveal_strlit("f");
        }
        "f"
    }
}

/// The bytes of `data` as lower-case hexadecimal text.
pub fn vec_to_hex_string(data: &Vec<u8>) -> (r: String)
    ensures
        r@ == hex_of(data@),
{
    let mut r = String::new();
    let mut i: usize = 0;
    while i < data.len()
        invariant
            i <= data@.len(),
            r@ == hex_of(data@.take(i as int)),
        decreases data@.len() - i,
    {
        let b = data[i];
        r.append(hex_digit(b / 16));
        r.append(hex_digit(b % 16));
        proof {
            let t = data@.take(i + 1);
            assert(t.drop_last() =~= data@.take(i as int));
        }
        i += 1;
    }
    proof {
        assert(data@.take(i as int) =~= data@);
    }
    r
}

/// A stored file as listed to clients: its root in hexadecimal and its piece
/// count.
pub struct HashItem {
    pub hash: String,
    pub pieces: u32,
}

/// A chunk as served to clients: its content and each proof digest in
/// hexadecimal.
pub struct MerkleProof {
    pub content: String,
    pub proof: Vec<String>,
}

/// The listing of stored roots and piece counts, in hexadecimal.
pub fn hash_items(files: &Vec<(Vec<u8>, u32)>) -> (r: Vec<HashItem>)
    ensures
        r@.len() == files@.len(),
        forall|i: int| #![trigger r@[i]]
            0 <= i < r@.len() ==> r@[i].hash@ == hex_of(files@[i].0@) && r@[i].pieces == files@[i].1,
{
    let mut r: Vec<HashItem> = Vec::new();
    let mut i: usize = 0;
    while i < files.len()
        invariant
            i <= files@.len(),
            r@.len() == i,
            forall|j: int| #![trigger r@[j]]
                0 <= j < i ==> r@[j].hash@ == hex_of(files@[j].0@) && r@[j].pieces == files@[j].1,
        decreases files@.len() - i,
    {
        let hash = vec_to_hex_string(&files[i].0);
        r.push(HashItem { hash, pieces: files[i].1 });
        i += 1;
    }
    r
}

/// A served chunk and its proof, in hexadecimal.
pub fn merkle_proof_item(content: &Vec<u8>, proof: &Vec<Vec<u8>>) -> (r: MerkleProof)
    ensures
        r.content@ == hex_of(content@),
        r.proof@.len() == proof@.len(),
        forall|i: int| 0 <= i < proof@.len() ==> #[trigger] r.proof@[i]@ == hex_of(proof@[i]@),
{
    let mut digests: Vec<String> = Vec::new();
    let mut i: usize = 0;
    while i < proof.len()
        invariant
            i <= proof@.len(),
            digests@.len() == i,
            forall|j: int| 0 <= j < i ==> #[trigger] digests@[j]@ == hex_of(proof@[j]@),
        decreases proof@.len() - i,
    {
        digests.push(vec_to_hex_string(&proof[i]));
        i += 1;
    }
    MerkleProof { content: vec_to_hex_string(content), proof: digests }
}

/// The server of the file queries, over a client of the ledger.
pub struct TemplatePallet<C, Block> {
    pub client: Arc<C>,
    pub marker: PhantomData<Block>,
}

impl<C, Block> TemplatePallet<C, Block> {
    /// A server over `client`.
    pub fn new(client: Arc<C>) -> (r: Self)
        ensures
            r.client == client,
    {
        TemplatePallet { client, marker: PhantomData }
    }
}

} // verus!
