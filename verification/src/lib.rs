use vstd::prelude::*;

pub mod codec;
pub mod merkle;
pub mod qf;
pub mod u256;

verus! {

/// The two ways a run can abort: the input bytes do not parse as the
/// expected tuple, or the distribution is undefined because the cumulative
/// quadratic score is zero.
#[derive(Clone, Copy, PartialEq, Eq, Structural, Debug)]
pub enum Error {
    DecodeError,
    ArithmeticDegenerate,
}

/// The quadratic-funding pipeline after decoding: compute the distribution
/// and commit to it, returning the Merkle root as a 256-bit integer.
/// Aborts exactly when the cumulative quadratic score is zero (which
/// includes an empty donation set).
pub fn quadratic(donations: Vec<Vec<u256::U256>>, matching_amount: u256::U256) -> (r: Result<
    u256::U256,
    Error,
>)
    ensures
        match r {
            Ok(root) => qf::cumulative(donations.deep_view()) != 0 && root@ == codec::word_val(
                merkle::spec_commit(qf::spec_receive(donations.deep_view(), matching_amount@)),
            ),
            Err(e) => qf::cumulative(donations.deep_view()) == 0 && e
                == Error::ArithmeticDegenerate,
        },
{
    let receive = match qf::compute(&donations, &matching_amount) {
        Ok(v) => v,
        Err(e) => {
            return Err(e);
        },
    };
    proof {
        if donations.len() == 0 {
            assert(donations.deep_view() =~= Seq::<Seq<nat>>::empty());
            qf::lemma_cumulative_empty();
        }
        assert(receive.deep_view().len() == receive@.len());
        assert(donations.deep_view().len() == donations@.len());
        assert(qf::spec_receive(donations.deep_view(), matching_amount@).len()
            == donations.deep_view().len());
        assert(receive.len() >= 1);
    }
    let root_bytes = merkle::commit(&receive);
    let root = codec::read_word(&root_bytes, 0);
    proof {
        assert(root_bytes@.subrange(0, 32) =~= root_bytes@);
    }
    Ok(root)
}

/// The whole computation, from encoded input bytes to the encoded journal:
/// decode the tuple, compute the distribution, commit to it, and encode the
/// root. The journal is a function of the input bytes alone; a buffer that
/// does not parse is rejected before any computation, and a zero cumulative
/// score aborts without a journal.
pub fn run(input: &Vec<u8>) -> (r: Result<Vec<u8>, Error>)
    ensures
        match codec::spec_decode(input@) {
            Some(dm) => match r {
                Ok(j) => qf::cumulative(dm.0) != 0 && j@ == merkle::spec_commit(
                    qf::spec_receive(dm.0, dm.1),
                ) && j@.len() == 32,
                Err(e) => qf::cumulative(dm.0) == 0 && e == Error::ArithmeticDegenerate,
            },
            None => r == Err::<Vec<u8>, Error>(Error::DecodeError),
        },
{
    let decoded = match codec::decode_input(input) {
        Ok(p) => p,
        Err(e) => {
            return Err(e);
        },
    };
    let donations = decoded.0;
    let matching = decoded.1;
    let receive = match qf::compute(&donations, &matching) {
        Ok(v) => v,
        Err(e) => {
            return Err(e);
        },
    };
    proof {
        if donations.len() == 0 {
            assert(donations.deep_view() =~= Seq::<Seq<nat>>::empty());
            qf::lemma_cumulative_empty();
        }
        assert(receive.deep_view().len() == receive@.len());
        assert(donations.deep_view().len() == donations@.len());
        assert(qf::spec_receive(donations.deep_view(), matching@).len()
            == donations.deep_view().len());
        assert(receive.len() >= 1);
    }
    let root_bytes = merkle::commit(&receive);
    let root = codec::read_word(&root_bytes, 0);
    let journal = codec::encode_uint256(&root);
    proof {
        assert(root_bytes@.subrange(0, 32) =~= root_bytes@);
        codec::lemma_be_enc_inverse(root_bytes@);
    }
    Ok(journal)
}

/// A single grant with one donation d and matching amount m commits to the
/// hash of the single leaf (0, d + m): its score is the whole cumulative
/// score, so the pool is matched to it entirely, and a one-leaf tree's root
/// is that leaf's hash. The bounds keep every intermediate value inside the
/// 256-bit type.
pub proof fn lemma_single_grant_root(d: nat, m: nat)
    requires
        0 < d,
        d * d < u256::u256_mod(),
        (d * d) * (d * d) < u256::u256_mod(),
        (d * d) * (d * d) * m < u256::u256_mod(),
        d + m < u256::u256_mod(),
    ensures
        merkle::spec_commit(qf::spec_receive(seq![seq![d]], m)) == merkle::keccak256_of(
            merkle::leaf_bytes(0, (d + m) as nat),
        ),
{
    qf::lemma_single_grant_identity(d, m);
    merkle::lemma_single_leaf_root((d + m) as nat);
}

} // verus!
