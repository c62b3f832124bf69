//! Content digests: the 32-byte fingerprint of a file's bytes and its
//! fixed-width hexadecimal form.

use vstd::prelude::*;
use vstd::std_specs::cmp::PartialEqSpecImpl;
use vstd::string::StringExecFns;

verus! {

/// The digest that `sha_256::Sha256::digest` computes for `data`.
pub uninterp spec fn sha256(data: Seq<u8>) -> Seq<u8>;

/// Longest input, in bytes, whose length in bits still fits in a `usize`.
pub open spec fn hashable_len(len: nat) -> bool {
    len * 8 <= usize::MAX
}

/// Calls `sha_256::Sha256::digest` on a fresh `sha_256::Sha256`.
///
/// The digest is taken to depend on the message alone: `digest` resets the
/// eight state words on entry and rewrites the message schedule for every
/// chunk. It multiplies the message length by eight in a `usize`, which is why
/// longer messages are left out.
#[verifier::external_body]
fn sha256_digest(data: &[u8]) -> (out: [u8; 32])
    requires
        hashable_len(data@.len()),
    ensures
        out@ == sha256(data@),
{
    let mut hasher = sha_256::Sha256::new();
    hasher.digest(data)
}

/// A content fingerprint: 32 bytes, compared byte by byte.
#[derive(Debug, Clone, Copy)]
pub struct Hash {
    hash: [u8; 32],
}

impl View for Hash {
    type V = Seq<u8>;

    closed spec fn view(&self) -> Seq<u8> {
        self.hash@
    }
}

impl Hash {
    /// Wraps 32 digest bytes.
    pub fn new(h: &[u8; 32]) -> (out: Hash)
        ensures
            out@ == h@,
    {
        Hash { hash: *h }
    }

    /// The digest bytes.
    pub fn bytes(&self) -> (out: &[u8; 32])
        ensures
            out@ == self@,
    {
        &self.hash
    }

    /// A digest has 32 bytes.
    pub proof fn lemma_len(self)
        ensures
            self@.len() == 32,
    {
    }

    /// Two digests with the same bytes are the same digest.
    pub proof fn lemma_view_injective(self, other: Hash)
        ensures
            self@ == other@ <==> self == other,
    {
        if self@ == other@ {
            assert(self.hash@ =~= other.hash@);
            assert(self.hash == other.hash);
        }
    }

    /// The digest as 64 lowercase hexadecimal digits, two per byte, high
    /// nibble first.
    pub fn to_hex(&self) -> (out: String)
        ensures
            out@ == hex_of(self@),
    {
        let mut out = String::new();
        let mut i: usize = 0;
        while i < 32
            invariant
                i <= 32,
                self.hash@.len() == 32,
                out@ == hex_of(self.hash@).take(2 * i),
            decreases 32 - i,
        {
            let byte: u8 = self.hash[i];
            out.append(hex_digit_str(byte / 16));
            out.append(hex_digit_str(byte % 16));
            assert(out@ =~= hex_of(self.hash@).take(2 * (i + 1)));
            i += 1;
        }
        assert(hex_of(self.hash@).take(64) =~= hex_of(self.hash@));
        out
    }
}

impl PartialEq for Hash {
    fn eq(&self, other: &Self) -> (r: bool) {
        let mut i: usize = 0;
        while i < 32
            invariant
                i <= 32,
                self.hash@.len() == 32,
                other.hash@.len() == 32,
                forall|k: int| 0 <= k < i ==> self.hash@[k] == other.hash@[k],
            decreases 32 - i,
        {
            if self.hash[i] != other.hash[i] {
                return false;
            }
            i += 1;
        }
        assert(self.hash@ =~= other.hash@);
        true
    }
}

impl Eq for Hash {

}

impl PartialEqSpecImpl for Hash {
    open spec fn obeys_eq_spec() -> bool {
        true
    }

    open spec fn eq_spec(&self, other: &Hash) -> bool {
        self@ == other@
    }
}

/// The lowercase hexadecimal digit for a value below 16.
pub open spec fn hex_digit(n: int) -> char {
    if n < 10 {
        (('0' as u8) + n) as u8 as char
    } else {
        (('a' as u8) + n - 10) as u8 as char
    }
}

/// Two lowercase hexadecimal digits per byte, high nibble first.
pub open spec fn hex_of(bytes: Seq<u8>) -> Seq<char> {
    Seq::new(
        2 * bytes.len(),
        |i: int| hex_digit(if i % 2 == 0 { bytes[i / 2] as int / 16 } else { bytes[i / 2] as int % 16 }),
    )
}

fn hex_digit_str(n: u8) -> (out: &'static str)
    requires
        n < 16,
    ensures
        out@ == seq![hex_digit(n as int)],
{
    proof {
        reveal_strlit("0");
        reveal_strlit("1");
        reveal_strlit("2");
        reveal_strlit("3");
        reveal_strlit("4");
        reveal_strlit("5");
        reveal_strlit("6");
        reveal_strlit("7");
        reveal_strlit("8");
        reveal_strlit("9");
        reveal_strlit("a");
        reveal_strlit("b");
        reveal_strlit("c");
        reveal_strlit("d");
        reveal_strlit("e");
        reveal_strlit("f");
    }
    let out = match n {
        0 => "0",
        1 => "1",
        2 => "2",
        3 => "3",
        4 => "4",
        5 => "5",
        6 => "6",
        7 => "7",
        8 => "8",
        9 => "9",
        10 => "a",
        11 => "b",
        12 => "c",
        13 => "d",
        14 => "e",
        _ => "f",
    };
    assert(out@ =~= seq![hex_digit(n as int)]);
    out
}

/// The digest and the length of a file's bytes.
pub fn hash_file(data: &[u8]) -> (out: (Hash, usize))
    requires
        hashable_len(data@.len()),
    ensures
        out.0@ == sha256(data@),
        out.1 == data@.len(),
{
    let digest = sha256_digest(data);
    (Hash::new(&digest), data.len())
}

} // verus!
