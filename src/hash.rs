use sha3::Digest;
use tiny_keccak::Hasher;
use vstd::prelude::*;

verus! {

/// Number of bytes in a digest.
pub const HASH_SIZE: usize = 32;

/// A 32-byte digest.
#[derive(Clone, Copy, Debug, Hash)]
pub struct Hash(pub [u8; 32]);

impl View for Hash {
    type V = Seq<u8>;

    open spec fn view(&self) -> Seq<u8> {
        self.0@
    }
}

/// The character of a hexadecimal digit `n < 16`, lowercase or uppercase.
pub open spec fn hex_digit(n: u8, upper: bool) -> char {
    if n < 10 {
        (n + 48) as char
    } else if upper {
        (n + 55) as char
    } else {
        (n + 87) as char
    }
}

/// Two hexadecimal digits per byte, most significant nibble first.
pub open spec fn hex_of(b: Seq<u8>, upper: bool) -> Seq<char> {
    Seq::new(
        2 * b.len(),
        |k: int|
            if k % 2 == 0 {
                hex_digit(b[k / 2] / 16, upper)
            } else {
                hex_digit(b[k / 2] % 16, upper)
            },
    )
}

/// Relies on String::push: the character is appended at the end.
#[verifier::external_body]
fn push_char(s: &mut String, c: char)
    ensures
        final(s)@ == old(s)@.push(c),
{
    s.push(c)
}

fn nibble_char(n: u8, upper: bool) -> (c: char)
    requires
        n < 16,
    ensures
        c == hex_digit(n, upper),
{
    if n < 10 {
        (n + 48) as char
    } else if upper {
        (n + 55) as char
    } else {
        (n + 87) as char
    }
}

impl Hash {
    fn to_hex(&self, upper: bool) -> (r: String)
        ensures
            r@ == hex_of(self@, upper),
    {
        let mut s = String::new();
        let mut i: usize = 0;
        while i < HASH_SIZE
            invariant
                i <= HASH_SIZE,
                self@.len() == HASH_SIZE,
                s@ =~= hex_of(self@.take(i as int), upper),
            decreases HASH_SIZE - i,
        {
            let b = self.0[i];
            push_char(&mut s, nibble_char(b / 16, upper));
            push_char(&mut s, nibble_char(b % 16, upper));
            assert(self@.take(i + 1) =~= self@.take(i as int).push(b));
            i = i + 1;
        }
        assert(self@.take(HASH_SIZE as int) =~= self@);
        s
    }

    /// The digest as 64 lowercase hexadecimal characters.
    pub fn to_hex_lower(&self) -> (r: String)
        ensures
            r@ == hex_of(self@, false),
            r@.len() == 64,
    {
        self.to_hex(false)
    }

    /// The digest as 64 uppercase hexadecimal characters, as used for diagnostics.
    pub fn to_hex_upper(&self) -> (r: String)
        ensures
            r@ == hex_of(self@, true),
            r@.len() == 64,
    {
        self.to_hex(true)
    }

    pub fn as_bytes(&self) -> (r: &[u8; 32])
        ensures
            r@ == self@,
    {
        &self.0
    }
}

impl AsRef<[u8]> for Hash {
    fn as_ref(&self) -> (r: &[u8])
        ensures
            r@ == self@,
    {
        self.0.as_slice()
    }
}

impl PartialEq for Hash {
    fn eq(&self, other: &Hash) -> (r: bool)
        ensures
            r == (self@ == other@),
    {
        let mut i: usize = 0;
        while i < HASH_SIZE
            invariant
                i <= HASH_SIZE,
                self@.len() == HASH_SIZE,
                other@.len() == HASH_SIZE,
                self@.take(i as int) =~= other@.take(i as int),
            decreases HASH_SIZE - i,
        {
            if self.0[i] != other.0[i] {
                assert(self@[i as int] != other@[i as int]);
                return false;
            }
            assert(self@.take(i + 1) =~= self@.take(i as int).push(self@[i as int]));
            assert(other@.take(i + 1) =~= other@.take(i as int).push(other@[i as int]));
            i = i + 1;
        }
        assert(self@ =~= self@.take(HASH_SIZE as int));
        assert(other@ =~= other@.take(HASH_SIZE as int));
        true
    }
}

impl vstd::std_specs::cmp::PartialEqSpecImpl for Hash {
    open spec fn obeys_eq_spec() -> bool {
        true
    }

    open spec fn eq_spec(&self, other: &Hash) -> bool {
        self@ == other@
    }
}

impl Eq for Hash {
}

/// A one-way hash function with a 32-byte output, fixed at compile time.
pub trait MerkleHasher {
    /// Name of the algorithm (`sha3-256`, ...).
    const NAME: &'static str;

    /// The digest of a byte sequence; a function of the bytes alone.
    spec fn spec_hash(data: Seq<u8>) -> Seq<u8>;

    fn hash(data: &[u8]) -> (r: Hash)
        ensures
            r@ == Self::spec_hash(data@),
    ;
}

/// The bytes hashed for a leaf: tag `0x00`, then the message.
pub open spec fn leaf_input(msg: Seq<u8>) -> Seq<u8> {
    seq![0u8] + msg
}

/// The bytes hashed for an internal node: tag `0x01`, then both children.
pub open spec fn node_input(left: Seq<u8>, right: Seq<u8>) -> Seq<u8> {
    seq![1u8] + left + right
}

pub open spec fn leaf_digest<H: MerkleHasher>(msg: Seq<u8>) -> Seq<u8> {
    H::spec_hash(leaf_input(msg))
}

pub open spec fn node_digest<H: MerkleHasher>(left: Seq<u8>, right: Seq<u8>) -> Seq<u8> {
    H::spec_hash(node_input(left, right))
}

/// Two distinct inputs with the same digest under `H`.
pub open spec fn is_collision<H: MerkleHasher>(a: Seq<u8>, b: Seq<u8>) -> bool {
    a != b && H::spec_hash(a) == H::spec_hash(b)
}

/// Leaf hash with domain separation: `H(0x00 || message)`.
pub fn leaf_hash<H: MerkleHasher>(msg: &[u8]) -> (r: Hash)
    ensures
        r@ == leaf_digest::<H>(msg@),
{
    let mut buf: Vec<u8> = Vec::new();
    buf.push(0u8);
    let mut i: usize = 0;
    while i < msg.len()
        invariant
            i <= msg@.len(),
            buf@ =~= seq![0u8] + msg@.take(i as int),
        decreases msg@.len() - i,
    {
        buf.push(msg[i]);
        assert(msg@.take(i + 1) =~= msg@.take(i as int).push(msg@[i as int]));
        i = i + 1;
    }
    assert(msg@.take(msg@.len() as int) =~= msg@);
    H::hash(buf.as_slice())
}

/// Node hash with domain separation: `H(0x01 || left || right)`, a 65-byte input.
pub fn node_hash<H: MerkleHasher>(left: &Hash, right: &Hash) -> (r: Hash)
    ensures
        r@ == node_digest::<H>(left@, right@),
{
    let mut buf: Vec<u8> = Vec::new();
    buf.push(1u8);
    let mut i: usize = 0;
    while i < HASH_SIZE
        invariant
            i <= HASH_SIZE,
            left@.len() == HASH_SIZE,
            buf@ =~= seq![1u8] + left@.take(i as int),
        decreases HASH_SIZE - i,
    {
        buf.push(left.0[i]);
        assert(left@.take(i + 1) =~= left@.take(i as int).push(left@[i as int]));
        i = i + 1;
    }
    assert(left@.take(HASH_SIZE as int) =~= left@);
    let mut j: usize = 0;
    while j < HASH_SIZE
        invariant
            j <= HASH_SIZE,
            left@.len() == HASH_SIZE,
            right@.len() == HASH_SIZE,
            buf@ =~= seq![1u8] + left@ + right@.take(j as int),
        decreases HASH_SIZE - j,
    {
        buf.push(right.0[j]);
        assert(right@.take(j + 1) =~= right@.take(j as int).push(right@[j as int]));
        j = j + 1;
    }
    assert(right@.take(HASH_SIZE as int) =~= right@);
    H::hash(buf.as_slice())
}

/// A leaf digest and a node digest are computed from distinct inputs: the tags differ.
/// So wherever they are equal, `H` has a collision.
pub proof fn lemma_domain_separation<H: MerkleHasher>(msg: Seq<u8>, left: Seq<u8>, right: Seq<u8>)
    ensures
        leaf_input(msg) != node_input(left, right),
        leaf_digest::<H>(msg) == node_digest::<H>(left, right) ==> is_collision::<H>(
            leaf_input(msg),
            node_input(left, right),
        ),
{
    assert(leaf_input(msg)[0] == 0u8);
    assert(node_input(left, right)[0] == 1u8);
}

/// The SHA3-256 digest of a byte sequence.
pub uninterp spec fn sha3_256_of(data: Seq<u8>) -> Seq<u8>;

/// The Keccak-256 digest of a byte sequence.
pub uninterp spec fn keccak_256_of(data: Seq<u8>) -> Seq<u8>;

/// Relies on sha3's `Sha3_256::digest` (digest 0.10 `Digest::digest`): the
/// SHA3-256 digest of the input, 32 bytes, a function of the input alone.
#[verifier::external_body]
fn sha3_256(data: &[u8]) -> (r: Hash)
    ensures
        r@ == sha3_256_of(data@),
{
    let out = sha3::Sha3_256::digest(data);
    let mut a = [0u8; 32];
    a.copy_from_slice(out.as_slice());
    Hash(a)
}

/// Relies on tiny_keccak's `Keccak::v256` with `update` and `finalize`: the
/// Keccak-256 digest of the input, 32 bytes, a function of the input alone.
#[verifier::external_body]
fn keccak_256(data: &[u8]) -> (r: Hash)
    ensures
        r@ == keccak_256_of(data@),
{
    let mut k = tiny_keccak::Keccak::v256();
    k.update(data);
    let mut out = [0u8; 32];
    k.finalize(&mut out);
    Hash(out)
}

/// SHA3-256 hasher.
#[derive(Debug)]
pub struct Sha3;

impl MerkleHasher for Sha3 {
    const NAME: &'static str = "sha3-256";

    open spec fn spec_hash(data: Seq<u8>) -> Seq<u8> {
        sha3_256_of(data)
    }

    fn hash(data: &[u8]) -> (r: Hash) {
        sha3_256(data)
    }
}

/// Keccak-256 hasher.
#[derive(Debug)]
pub struct Keccak;

impl MerkleHasher for Keccak {
    const NAME: &'static str = "keccak-256";

    open spec fn spec_hash(data: Seq<u8>) -> Seq<u8> {
        keccak_256_of(data)
    }

    fn hash(data: &[u8]) -> (r: Hash) {
        keccak_256(data)
    }
}

} // verus!
