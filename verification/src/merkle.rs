use vstd::prelude::*;

verus! {

use crate::u256::U256;
use crate::codec::be_enc;
use crate::codec::encode_uint256;

/// What sha3's Keccak-256 returns on a byte string.
pub uninterp spec fn keccak256_of(data: Seq<u8>) -> Seq<u8>;

/// Relies on sha3::Keccak256 (via the digest traits): the 32-byte
/// Keccak-256 digest of the input, a function of the input bytes alone.
#[verifier::external_body]
fn keccak256(data: &Vec<u8>) -> (r: Vec<u8>)
    ensures
        r@ == keccak256_of(data@),
        r@.len() == 32,
{
    let digest = <sha3::Keccak256 as sha3::Digest>::digest(data.as_slice());
    digest.as_slice().to_vec()
}

/// One leaf: the grant's index as 8 big-endian bytes, then its payout as a
/// 32-byte big-endian word.
pub open spec fn leaf_bytes(i: nat, amount: nat) -> Seq<u8> {
    be_enc(i, 8) + be_enc(amount, 32)
}

/// One level up the tree: adjacent nodes hash pairwise (the digest of the
/// left node's bytes followed by the right's); an unpaired last node is
/// promoted unchanged.
pub open spec fn merkle_level(level: Seq<Seq<u8>>) -> Seq<Seq<u8>> {
    Seq::new(
        ((level.len() + 1) / 2) as nat,
        |k: int|
            if 2 * k + 1 < level.len() {
                keccak256_of(level[2 * k] + level[2 * k + 1])
            } else {
                level[2 * k]
            },
    )
}

/// The root of the binary hash tree over the given nodes: levels are
/// folded pairwise until one node is left. A single node is its own root.
pub open spec fn merkle_root_of(nodes: Seq<Seq<u8>>) -> Seq<u8>
    decreases nodes.len(),
{
    if nodes.len() <= 1 {
        if nodes.len() == 1 {
            nodes[0]
        } else {
            Seq::empty()
        }
    } else {
        merkle_root_of(merkle_level(nodes))
    }
}

/// The hashed leaves of a payout sequence, in grant order.
pub open spec fn spec_leaves(receive: Seq<nat>) -> Seq<Seq<u8>> {
    Seq::new(receive.len(), |i: int| keccak256_of(leaf_bytes(i as nat, receive[i])))
}

/// The committed root of a payout sequence.
pub open spec fn spec_commit(receive: Seq<nat>) -> Seq<u8> {
    merkle_root_of(spec_leaves(receive))
}

/// A tree over a single payout has the hash of its one leaf as its root.
pub proof fn lemma_single_leaf_root(amount: nat)
    ensures
        spec_commit(seq![amount]) == keccak256_of(leaf_bytes(0, amount)),
{
    assert(spec_leaves(seq![amount]) =~= seq![keccak256_of(leaf_bytes(0, amount))]);
}

/// Append a copy of the source bytes to the destination.
fn append_bytes(dst: &mut Vec<u8>, src: &Vec<u8>)
    ensures
        final(dst)@ == old(dst)@ + src@,
{
    let mut t: usize = 0;
    while t < src.len()
        invariant
            t <= src.len(),
            dst@ == old(dst)@ + src@.take(t as int),
        decreases src.len() - t,
    {
        dst.push(src[t]);
        proof {
            assert(old(dst)@ + src@.take(t as int) + seq![src@[t as int]] =~= old(dst)@
                + src@.take(t + 1));
        }
        t = t + 1;
    }
    proof {
        assert(old(dst)@ + src@.take(src@.len() as int) =~= old(dst)@ + src@);
    }
}

/// Commit to a payout sequence: hash one leaf per grant, then fold the
/// levels of the binary tree, promoting an unpaired node unchanged, until
/// the 32-byte root remains.
pub fn commit(receive: &Vec<U256>) -> (r: Vec<u8>)
    requires
        receive.len() >= 1,
    ensures
        r@ == spec_commit(receive.deep_view()),
        r@.len() == 32,
{
    let ghost rv = receive.deep_view();
    let n = receive.len();
    let mut level: Vec<Vec<u8>> = Vec::new();
    let mut i: usize = 0;
    while i < n
        invariant
            rv == receive.deep_view(),
            n == receive.len(),
            i <= n,
            level.len() == i,
            forall|t: int| 0 <= t < i ==> #[trigger] level@[t]@ == spec_leaves(rv)[t],
            forall|t: int| 0 <= t < i ==> #[trigger] level@[t]@.len() == 32,
        decreases n - i,
    {
        let mut leaf: Vec<u8> = Vec::new();
        crate::codec::push_u64_be(&mut leaf, i as u64);
        let amount = receive[i];
        let encoded = encode_uint256(&amount);
        append_bytes(&mut leaf, &encoded);
        proof {
            assert(leaf@ =~= leaf_bytes(i as nat, rv[i as int]));
        }
        let h = keccak256(&leaf);
        level.push(h);
        i = i + 1;
    }
    proof {
        assert(level.deep_view() =~~= spec_leaves(rv));
        assert(merkle_root_of(level.deep_view()) == spec_commit(rv));
    }
    while level.len() > 1
        invariant
            level.len() >= 1,
            merkle_root_of(level.deep_view()) == spec_commit(rv),
            forall|t: int| 0 <= t < level.len() ==> #[trigger] level@[t]@.len() == 32,
        decreases level.len(),
    {
        let ghost cur = level.deep_view();
        proof {
            assert forall|t: int| 0 <= t < level.len() implies cur[t] == level@[t]@ by {
                assert(cur[t] =~= level@[t]@);
            }
        }
        let len = level.len();
        let half = (len - 1) / 2 + 1;
        proof {
            assert(half == (len + 1) / 2);
        }
        let mut next: Vec<Vec<u8>> = Vec::new();
        let mut k: usize = 0;
        while k < half
            invariant
                cur == level.deep_view(),
                len == level.len(),
                1 <= len,
                half == (len + 1) / 2,
                k <= half,
                next.len() == k,
                forall|t: int| 0 <= t < len ==> #[trigger] level@[t]@.len() == 32,
                forall|t: int| 0 <= t < len ==> #[trigger] cur[t] == level@[t]@,
                forall|t: int| 0 <= t < k ==> #[trigger] next@[t]@ == merkle_level(cur)[t],
                forall|t: int| 0 <= t < k ==> #[trigger] next@[t]@.len() == 32,
            decreases half - k,
        {
            if 2 * k + 1 < len {
                let mut cat: Vec<u8> = Vec::new();
                append_bytes(&mut cat, &level[2 * k]);
                append_bytes(&mut cat, &level[2 * k + 1]);
                let h = keccak256(&cat);
                next.push(h);
            } else {
                let mut lone: Vec<u8> = Vec::new();
                append_bytes(&mut lone, &level[2 * k]);
                next.push(lone);
            }
            k = k + 1;
        }
        proof {
            assert(next.deep_view() =~~= merkle_level(cur));
        }
        level = next;
    }
    let ghost fin = level.deep_view();
    let root = match level.pop() {
        Some(r) => r,
        None => Vec::new(),
    };
    proof {
        assert(fin =~~= seq![root@]);
        assert(merkle_root_of(fin) == root@);
    }
    root
}

} // verus!
