//! The note tree: a virtual Merkle tree of 32-byte notes compressed with
//! Keccak-256.

use vstd::prelude::*;
use vstd::laws_eq::obeys_concrete_eq;
use vstd::std_specs::cmp::PartialEqSpec;

use super::spec::obeys_iterated_law;
use super::{Compressor, VirtualMerkleTree};

verus! {

/// Height of the note tree.
pub const NOTE_TREE_HEIGHT: usize = 20;

/// The bytes of the empty note: 32 zero bytes.
pub const EMPTY_NOTE: [u8; 32] = [
    0, 0, 0, 0, 0, 0, 0, 0, 0, 0, 0, 0, 0, 0, 0, 0,
    0, 0, 0, 0, 0, 0, 0, 0, 0, 0, 0, 0, 0, 0, 0, 0,
];

/// A note, or an inner node of the note tree: 32 bytes.
#[derive(Clone, Copy, Debug, Eq, Hash)]
pub struct Note(pub [u8; 32]);

impl PartialEq for Note {
    fn eq(&self, other: &Self) -> (equal: bool) {
        let mut i: usize = 0;
        while i < 32
            invariant
                i <= 32,
                forall|j: int| 0 <= j < i ==> self.0[j] == other.0[j],
            decreases 32 - i,
        {
            if self.0[i] != other.0[i] {
                return false;
            }
            i = i + 1;
        }
        assert(self.0@ =~= other.0@);
        true
    }
}

impl vstd::std_specs::cmp::PartialEqSpecImpl for Note {
    open spec fn obeys_eq_spec() -> bool {
        true
    }

    open spec fn eq_spec(&self, other: &Note) -> bool {
        self.0@ == other.0@
    }
}

/// Two notes are `==` exactly when they hold the same bytes, so `==` on
/// notes is the equality of the model.
pub proof fn lemma_note_obeys_concrete_eq()
    ensures
        obeys_concrete_eq::<Note>(),
{
    reveal(obeys_concrete_eq);
    assert forall|x: Note, y: Note| x.eq_spec(&y) <==> x == y by {
        if x.0@ == y.0@ {
            assert(x.0 =~= y.0) by {
                assert forall|i: int| 0 <= i < 32 implies x.0[i] == y.0[i] by {
                    assert(x.0@[i] == y.0@[i]);
                }
            }
        }
    }
}

/// The note tree.
pub type NoteTree = VirtualMerkleTree<Note, KeccakCompressor>;

/// The Keccak-256 digest of `data`.
pub uninterp spec fn keccak256_digest(data: Seq<u8>) -> [u8; 32];

/// Hashes `data` with `alloy_primitives::keccak256` and returns the 32
/// digest bytes. Trusted: the digest is `keccak256_digest` of the bytes,
/// that is, the same bytes always give the same digest; nothing is claimed
/// of the digest's value.
#[verifier::external_body]
fn keccak256(data: &[u8]) -> (digest: [u8; 32])
    ensures
        digest == keccak256_digest(data@),
{
    alloy_primitives::keccak256(data).0
}

/// The root of an empty note subtree of height `n`: the empty note hashed
/// with itself `n` times.
pub open spec fn empty_note_subtree(n: nat) -> Note
    decreases n,
{
    if n == 0 {
        Note(EMPTY_NOTE)
    } else {
        let child = empty_note_subtree((n - 1) as nat);
        Note(keccak256_digest(child.0@ + child.0@))
    }
}

/// The empty note subtrees are iterated Keccak compressions.
pub proof fn lemma_keccak_obeys_iterated_law()
    ensures
        obeys_iterated_law::<Note, KeccakCompressor>(),
{
    reveal(obeys_iterated_law);
    assert forall|n: nat| #[trigger] KeccakCompressor::spec_iterated(n + 1) == KeccakCompressor::spec_compress(
        KeccakCompressor::spec_iterated(n),
        KeccakCompressor::spec_iterated(n),
    ) by {
        assert(empty_note_subtree(n + 1) == Note(
            keccak256_digest(empty_note_subtree(n).0@ + empty_note_subtree(n).0@),
        ));
    }
}

/// Compressing two notes hashes exactly their 64 bytes, the left note's 32
/// bytes followed by the right note's, with Keccak-256.
pub proof fn law_keccak_compress(left: Note, right: Note)
    ensures
        KeccakCompressor::spec_compress(left, right) == Note(keccak256_digest(left.0@ + right.0@)),
        (left.0@ + right.0@).len() == 64,
        (left.0@ + right.0@).subrange(0, 32) == left.0@,
        (left.0@ + right.0@).subrange(32, 64) == right.0@,
{
    assert((left.0@ + right.0@).subrange(0, 32) =~= left.0@);
    assert((left.0@ + right.0@).subrange(32, 64) =~= right.0@);
}

/// The empty leaf is the note of 32 zero bytes, and each empty subtree
/// root is the Keccak-256 digest of two copies of the one below it.
pub proof fn law_keccak_empty_subtrees(n: nat)
    ensures
        KeccakCompressor::spec_iterated(0).0@ == Seq::new(32, |i: int| 0u8),
        KeccakCompressor::spec_iterated(n + 1) == Note(
            keccak256_digest(
                KeccakCompressor::spec_iterated(n).0@ + KeccakCompressor::spec_iterated(n).0@,
            ),
        ),
{
    assert(KeccakCompressor::spec_iterated(0).0@ =~= Seq::new(32, |i: int| 0u8));
}

/// Compresses two notes into the Keccak-256 digest of their concatenation.
#[derive(Clone, Copy, Debug, PartialEq, Eq)]
pub struct KeccakCompressor;

impl Compressor<Note> for KeccakCompressor {
    open spec fn spec_compress(left: Note, right: Note) -> Note {
        Note(keccak256_digest(left.0@ + right.0@))
    }

    open spec fn spec_iterated(n: nat) -> Note {
        empty_note_subtree(n)
    }

    fn compress(&self, left: &Note, right: &Note) -> (node: Note) {
        let mut data: Vec<u8> = Vec::with_capacity(64);
        let mut i: usize = 0;
        while i < 32
            invariant
                i <= 32,
                data@ =~= left.0@.take(i as int),
            decreases 32 - i,
        {
            data.push(left.0[i]);
            i = i + 1;
        }
        let mut i: usize = 0;
        while i < 32
            invariant
                i <= 32,
                data@ =~= left.0@ + right.0@.take(i as int),
            decreases 32 - i,
        {
            data.push(right.0[i]);
            i = i + 1;
        }
        assert(right.0@.take(32) =~= right.0@);
        Note(keccak256(data.as_slice()))
    }

    fn iterated_compression(n: usize) -> (node: Note) {
        let compressor = KeccakCompressor;
        let mut node = Note(EMPTY_NOTE);
        let mut i: usize = 0;
        while i < n
            invariant
                i <= n,
                node == empty_note_subtree(i as nat),
            decreases n - i,
        {
            node = compressor.compress(&node, &node);
            i = i + 1;
        }
        node
    }

    fn load() -> Self {
        KeccakCompressor
    }
}

} // verus!
