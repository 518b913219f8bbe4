//! The content hash that names a log entry: the tag of the node that
//! proposed the mutation, followed by the MD5 digest of the mutation's wire
//! form in lower-case hexadecimal.

use vstd::prelude::*;
use vstd::string::StringExecFns;
use crate::mutation::{mutation_bytes, GraphMutation, MutationView};

verus! {

/// The MD5 digest of a byte string, as `md5::compute` returns it.
pub uninterp spec fn md5_of(bytes: Seq<u8>) -> Seq<u8>;

/// Calls `md5::compute` and hands back the sixteen bytes of the digest.
/// The digest depends on the input bytes alone; nothing else is claimed of it.
#[verifier::external_body]
fn md5_digest(bytes: &Vec<u8>) -> (digest: [u8; 16])
    ensures
        digest@ == md5_of(bytes@),
{
    md5::compute(bytes).0
}

/// The hexadecimal digit for a value below sixteen.
pub open spec fn hex_digit(n: int) -> char {
    if n == 0 {
        '0'
    } else if n == 1 {
        '1'
    } else if n == 2 {
        '2'
    } else if n == 3 {
        '3'
    } else if n == 4 {
        '4'
    } else if n == 5 {
        '5'
    } else if n == 6 {
        '6'
    } else if n == 7 {
        '7'
    } else if n == 8 {
        '8'
    } else if n == 9 {
        '9'
    } else if n == 10 {
        'a'
    } else if n == 11 {
        'b'
    } else if n == 12 {
        'c'
    } else if n == 13 {
        'd'
    } else if n == 14 {
        'e'
    } else {
        'f'
    }
}

/// Two lower-case hexadecimal digits for each byte, the high one first.
pub open spec fn hex_of(bytes: Seq<u8>) -> Seq<char> {
    Seq::new(
        2 * bytes.len(),
        |i: int|
            if i % 2 == 0 {
                hex_digit(bytes[i / 2] as int / 16)
            } else {
                hex_digit(bytes[i / 2] as int % 16)
            },
    )
}

/// The hash of a mutation proposed by the node with tag `node_id`.
pub open spec fn hash_of(node_id: Seq<char>, m: MutationView) -> Seq<char> {
    node_id + hex_of(md5_of(mutation_bytes(m)))
}

/// The hexadecimal digit for `n`, as a string of one character.
pub(crate) fn hex_str(n: u8) -> (digit: &'static str)
    requires
        n < 16,
    ensures
        digit@ == seq![hex_digit(n as int)],
{
    proof {
        reveal_strlit("0");
        reveal_strlit("1");
        reveal_strlit("2");
        reveal_strlit("3");
        reveal_strlit("4");
        reveal_strlit("5");
        reveal_strlit("6");
        reveal_strlit("7");
        reveal_strlit("8");
        reveal_strlit("9");
        reveal_strlit("a");
        reveal_strlit("b");
        reveal_strlit("c");
        reveal_strlit("d");
        reveal_strlit("e");
        reveal_strlit("f");
    }
    let digit = if n == 0 {
        "0"
    } else if n == 1 {
        "1"
    } else if n == 2 {
        "2"
    } else if n == 3 {
        "3"
    } else if n == 4 {
        "4"
    } else if n == 5 {
        "5"
    } else if n == 6 {
        "6"
    } else if n == 7 {
        "7"
    } else if n == 8 {
        "8"
    } else if n == 9 {
        "9"
    } else if n == 10 {
        "a"
    } else if n == 11 {
        "b"
    } else if n == 12 {
        "c"
    } else if n == 13 {
        "d"
    } else if n == 14 {
        "e"
    } else {
        "f"
    };
    assert(digit@ =~= seq![hex_digit(n as int)]);
    digit
}

/// Appends the hexadecimal form of `bytes` to `text`.
pub fn push_hex(text: &mut String, bytes: &[u8])
    ensures
        final(text)@ == old(text)@ + hex_of(bytes@),
{
    let mut i: usize = 0;
    assert(hex_of(bytes@.subrange(0, 0)) =~= Seq::<char>::empty());
    while i < bytes.len()
        invariant
            i <= bytes.len(),
            text@ == old(text)@ + hex_of(bytes@.subrange(0, i as int)),
        decreases bytes.len() - i,
    {
        let b = bytes[i];
        text.append(hex_str(b / 16));
        text.append(hex_str(b % 16));
        proof {
            let before = bytes@.subrange(0, i as int);
            let after = bytes@.subrange(0, i + 1);
            assert(hex_of(after) =~= hex_of(before) + seq![hex_digit(b as int / 16)] + seq![
                hex_digit(b as int % 16),
            ]);
        }
        i += 1;
    }
    assert(bytes@.subrange(0, bytes.len() as int) =~= bytes@);
}

/// The hash that a tag and a digest make: the tag, then the digest in
/// lower-case hexadecimal.
pub fn hash_text(node_id: &str, digest: &[u8]) -> (hash: String)
    ensures
        hash@ == node_id@ + hex_of(digest@),
        hash@.len() == node_id@.len() + 2 * digest@.len(),
{
    let mut hash = String::from_str(node_id);
    push_hex(&mut hash, digest);
    hash
}

impl GraphMutation {
    /// The hash under which this mutation is logged when the node with tag
    /// `node_id` proposes it.  It depends on the tag and on the mutation
    /// alone: the same mutation proposed under the same tag has the same hash
    /// on every node and at every time.
    pub fn get_hash(&self, node_id: &str) -> (hash: String)
        ensures
            hash@ == hash_of(node_id@, self@),
            hash@.len() == node_id@.len() + 32,
    {
        let encoded = self.encode();
        let digest = md5_digest(&encoded);
        hash_text(node_id, digest.as_slice())
    }
}

} // verus!
