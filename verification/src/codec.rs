use vstd::prelude::*;

verus! {

use vstd::arithmetic::div_mod::lemma_fundamental_div_mod_converse;
use vstd::arithmetic::div_mod::lemma_mod_breakdown;
use vstd::arithmetic::div_mod::lemma_div_denominator;
use vstd::arithmetic::div_mod::lemma_small_mod;
use crate::u256::U256;
use crate::u256::u256_mod;
use crate::u256::lemma_u256_bound;
use crate::Error;

/// 256^n, the number of values a big-endian string of n bytes can take.
pub open spec fn pow256(n: nat) -> nat
    decreases n,
{
    if n == 0 {
        1
    } else {
        256 * pow256((n - 1) as nat)
    }
}

/// The unsigned value of a byte string read in big-endian order.
pub open spec fn word_val(s: Seq<u8>) -> nat
    decreases s.len(),
{
    if s.len() == 0 {
        0
    } else {
        (word_val(s.drop_last()) * 256 + s.last()) as nat
    }
}

/// The big-endian encoding of `v` on `len` bytes; high bits beyond
/// `len` bytes are discarded.
pub open spec fn be_enc(v: nat, len: nat) -> Seq<u8>
    decreases len,
{
    if len == 0 {
        Seq::empty()
    } else {
        be_enc(v / 256, (len - 1) as nat).push((v % 256) as u8)
    }
}

pub proof fn lemma_pow256_pos(n: nat)
    ensures
        pow256(n) >= 1,
    decreases n,
{
    if n > 0 {
        lemma_pow256_pos((n - 1) as nat);
    }
}

pub proof fn lemma_pow256_increases(a: nat, b: nat)
    requires
        a <= b,
    ensures
        pow256(a) <= pow256(b),
    decreases b,
{
    if a < b {
        lemma_pow256_increases(a, (b - 1) as nat);
    }
}

/// A big-endian string of n bytes holds a value below 256^n.
pub proof fn lemma_word_val_bound(s: Seq<u8>)
    ensures
        word_val(s) < pow256(s.len()),
    decreases s.len(),
{
    if s.len() > 0 {
        lemma_word_val_bound(s.drop_last());
    }
}

/// Reading a concatenation big-endian: the left part carries the weight of
/// the right part's length.
pub proof fn lemma_word_val_append(a: Seq<u8>, b: Seq<u8>)
    ensures
        word_val(a + b) == word_val(a) * pow256(b.len()) + word_val(b),
    decreases b.len(),
{
    if b.len() == 0 {
        assert(a + b =~= a);
        assert(word_val(a) * pow256(b.len()) == word_val(a)) by (nonlinear_arith)
            requires
                pow256(b.len()) == 1,
        ;
    } else {
        assert((a + b).drop_last() =~= a + b.drop_last());
        lemma_word_val_append(a, b.drop_last());
        assert(word_val(a + b) == word_val(a) * pow256(b.len()) + word_val(b)) by (nonlinear_arith)
            requires
                word_val(a + b) == word_val(a + b.drop_last()) * 256 + b.last(),
                word_val(a + b.drop_last()) == word_val(a) * pow256((b.len() - 1) as nat)
                    + word_val(b.drop_last()),
                word_val(b) == word_val(b.drop_last()) * 256 + b.last(),
                pow256(b.len()) == 256 * pow256((b.len() - 1) as nat),
        ;
    }
}

/// An encoding takes exactly the asked-for number of bytes.
pub proof fn lemma_be_enc_len(v: nat, len: nat)
    ensures
        be_enc(v, len).len() == len,
    decreases len,
{
    if len > 0 {
        lemma_be_enc_len(v / 256, (len - 1) as nat);
    }
}

/// The special case of an 8-byte right part, with its weight as a numeral.
pub proof fn lemma_word_val_append8(a: Seq<u8>, b: Seq<u8>)
    requires
        b.len() == 8,
    ensures
        word_val(a + b) == word_val(a) * 0x10000000000000000 + word_val(b),
{
    lemma_word_val_append(a, b);
    assert(pow256(8) == 0x10000000000000000) by {
        reveal_with_fuel(pow256, 9);
    }
}

/// Encoding reads only the low `len` bytes of the value.
pub proof fn lemma_be_enc_mod(v: nat, len: nat)
    ensures
        be_enc(v, len) == be_enc(v % pow256(len), len),
    decreases len,
{
    if len > 0 {
        let p = pow256((len - 1) as nat);
        lemma_pow256_pos((len - 1) as nat);
        lemma_mod_breakdown(v as int, 256, p as int);
        // v % (256 * p) == 256 * ((v / 256) % p) + v % 256
        lemma_fundamental_div_mod_converse(
            (v % (256 * p)) as int,
            256,
            ((v / 256) % p) as int,
            (v % 256) as int,
        );
        lemma_be_enc_mod(v / 256, (len - 1) as nat);
        assert((v % pow256(len)) / 256 == (v / 256) % p);
        assert((v % pow256(len)) % 256 == v % 256);
        lemma_be_enc_mod((v % pow256(len)) / 256, (len - 1) as nat);
    }
}

/// Decoding an encoding returns the value, reduced to the encoded width.
pub proof fn lemma_be_enc_val(v: nat, len: nat)
    ensures
        word_val(be_enc(v, len)) == v % pow256(len),
    decreases len,
{
    if len == 0 {
        assert(v % 1 == 0) by {
            lemma_small_mod(0, 1);
            assert(v % 1 == 0);
        }
    } else {
        let p = pow256((len - 1) as nat);
        lemma_pow256_pos((len - 1) as nat);
        lemma_be_enc_val(v / 256, (len - 1) as nat);
        assert(be_enc(v, len).drop_last() =~= be_enc(v / 256, (len - 1) as nat));
        lemma_mod_breakdown(v as int, 256, p as int);
    }
}

/// Encoding a decoded byte string of the same length gives it back.
pub proof fn lemma_be_enc_inverse(s: Seq<u8>)
    ensures
        be_enc(word_val(s), s.len()) == s,
    decreases s.len(),
{
    if s.len() > 0 {
        lemma_be_enc_inverse(s.drop_last());
        lemma_fundamental_div_mod_converse(
            word_val(s) as int,
            256,
            word_val(s.drop_last()) as int,
            s.last() as int,
        );
        assert(be_enc(word_val(s), s.len()) =~= s);
    }
}

/// 256^32 is the modulus of the 256-bit integer type.
pub proof fn lemma_pow256_32()
    ensures
        pow256(32) == u256_mod(),
{
    reveal_with_fuel(pow256, 33);
}

/// Encoding a 256-bit value on 32 bytes and reading it back is the identity.
pub proof fn lemma_scalar_round_trip(x: U256)
    ensures
        word_val(be_enc(x@, 32)) == x@,
{
    broadcast use lemma_u256_bound;

    lemma_be_enc_val(x@, 32);
    lemma_pow256_32();
    lemma_small_mod(x@, pow256(32));
}

/// Read 8 bytes of the buffer as a big-endian 64-bit value.
fn read_u64_be(buf: &Vec<u8>, pos: usize) -> (r: u64)
    requires
        pos + 8 <= buf.len(),
    ensures
        r as nat == word_val(buf@.subrange(pos as int, pos as int + 8)),
{
    let mut r: u64 = 0;
    let mut j: usize = 0;
    assert(buf@.subrange(pos as int, pos as int) =~= Seq::<u8>::empty());
    while j < 8
        invariant
            j <= 8,
            pos + 8 <= buf.len(),
            r as nat == word_val(buf@.subrange(pos as int, pos as int + j)),
        decreases 8 - j,
    {
        proof {
            lemma_word_val_bound(buf@.subrange(pos as int, pos as int + j));
            lemma_pow256_increases(j as nat, 7);
            assert(pow256(7) == 0x100000000000000) by {
                reveal_with_fuel(pow256, 8);
            }
            assert(buf@.subrange(pos as int, pos as int + j + 1).drop_last() =~= buf@.subrange(
                pos as int,
                pos as int + j,
            ));
        }
        r = r * 256 + (buf[pos + j] as u64);
        j = j + 1;
    }
    r
}

/// Read 32 bytes of the buffer as a big-endian 256-bit word.
pub fn read_word(buf: &Vec<u8>, pos: usize) -> (r: U256)
    requires
        pos + 32 <= buf.len(),
    ensures
        r@ == word_val(buf@.subrange(pos as int, pos as int + 32)),
{
    let w0 = read_u64_be(buf, pos);
    let w1 = read_u64_be(buf, pos + 8);
    let w2 = read_u64_be(buf, pos + 16);
    let w3 = read_u64_be(buf, pos + 24);
    proof {
        let p = pos as int;
        let s = buf@.subrange(p, p + 32);
        let s0 = buf@.subrange(p, p + 8);
        let s1 = buf@.subrange(p + 8, p + 16);
        let s2 = buf@.subrange(p + 16, p + 24);
        let s3 = buf@.subrange(p + 24, p + 32);
        assert(s =~= ((s0 + s1) + s2) + s3);
        lemma_word_val_append8((s0 + s1) + s2, s3);
        lemma_word_val_append8(s0 + s1, s2);
        lemma_word_val_append8(s0, s1);
    }
    U256 { limb0: w3, limb1: w2, limb2: w1, limb3: w0 }
}

/// Append the big-endian encoding of a 64-bit value to the buffer.
pub(crate) fn push_u64_be(out: &mut Vec<u8>, x: u64)
    ensures
        final(out)@ == old(out)@ + be_enc(x as nat, 8),
{
    let x6: u64 = x / 256;
    let x5: u64 = x6 / 256;
    let x4: u64 = x5 / 256;
    let x3: u64 = x4 / 256;
    let x2: u64 = x3 / 256;
    let x1: u64 = x2 / 256;
    let x0: u64 = x1 / 256;
    proof {
        lemma_div_denominator(x as int, 256, 256);
        lemma_div_denominator(x as int, 256int * 256, 256);
        lemma_div_denominator(x as int, 256int * 256 * 256, 256);
        lemma_div_denominator(x as int, 256int * 256 * 256 * 256, 256);
        lemma_div_denominator(x as int, 256int * 256 * 256 * 256 * 256, 256);
        lemma_div_denominator(x as int, 256int * 256 * 256 * 256 * 256 * 256, 256);
    }
    out.push((x0 % 256) as u8);
    out.push((x1 % 256) as u8);
    out.push((x2 % 256) as u8);
    out.push((x3 % 256) as u8);
    out.push((x4 % 256) as u8);
    out.push((x5 % 256) as u8);
    out.push((x6 % 256) as u8);
    out.push((x % 256) as u8);
    proof {
        reveal_with_fuel(be_enc, 9);
        assert(x0 / 256 == 0);
        assert(final(out)@ =~= old(out)@ + be_enc(x as nat, 8));
    }
}

/// The big-endian split of a value across two adjacent byte fields.
pub proof fn lemma_be_enc_split(v: nat, n: nat, k: nat)
    ensures
        be_enc(v, n + k) == be_enc(v / pow256(k), n) + be_enc(v, k),
    decreases k,
{
    if k == 0 {
        assert(v * pow256(k) == v) by (nonlinear_arith)
            requires
                pow256(k) == 1,
        ;
        assert(v / pow256(k) == v) by {
            lemma_fundamental_div_mod_converse(v as int, pow256(k) as int, v as int, 0);
        }
        assert(be_enc(v, n) + be_enc(v, 0) =~= be_enc(v, n));
    } else {
        lemma_be_enc_split(v / 256, n, (k - 1) as nat);
        lemma_pow256_pos((k - 1) as nat);
        lemma_div_denominator(v as int, 256, pow256((k - 1) as nat) as int);
        assert((v / 256) / pow256((k - 1) as nat) == v / pow256(k));
        assert(be_enc(v, (n + k) as nat) == be_enc(v / 256, (n + k - 1) as nat).push(
            (v % 256) as u8,
        ));
        assert(be_enc(v / 256, (n + k - 1) as nat) == be_enc(v / pow256(k), n) + be_enc(
            v / 256,
            (k - 1) as nat,
        ));
        assert((be_enc(v / pow256(k), n) + be_enc(v / 256, (k - 1) as nat)).push((v % 256) as u8)
            =~= be_enc(v / pow256(k), n) + be_enc(v, k));
        assert(be_enc(v, n + k) == be_enc(v / pow256(k), n) + be_enc(v, k));
    }
}

/// Serialize a 256-bit value as its 32-byte big-endian ABI word.
pub fn encode_uint256(x: &U256) -> (r: Vec<u8>)
    ensures
        r@ == be_enc(x@, 32),
        r@.len() == 32,
{
    let mut out: Vec<u8> = Vec::new();
    push_u64_be(&mut out, x.limb3);
    push_u64_be(&mut out, x.limb2);
    push_u64_be(&mut out, x.limb1);
    push_u64_be(&mut out, x.limb0);
    proof {
        let v = x@;
        let b: nat = 0x10000000000000000;
        assert(pow256(8) == b) by {
            reveal_with_fuel(pow256, 9);
        }
        // Peel the four limbs off the value, least significant last.
        assert(v / b == (x.limb1 as nat) + b * ((x.limb2 as nat) + b * (x.limb3 as nat)) && v % b
            == x.limb0 as nat) by {
            lemma_fundamental_div_mod_converse(
                v as int,
                b as int,
                ((x.limb1 as nat) + b * ((x.limb2 as nat) + b * (x.limb3 as nat))) as int,
                x.limb0 as int,
            );
        }
        let v1 = v / b;
        assert(v1 / b == (x.limb2 as nat) + b * (x.limb3 as nat) && v1 % b == x.limb1 as nat) by {
            lemma_fundamental_div_mod_converse(
                v1 as int,
                b as int,
                ((x.limb2 as nat) + b * (x.limb3 as nat)) as int,
                x.limb1 as int,
            );
        }
        let v2 = v1 / b;
        assert(v2 / b == x.limb3 as nat && v2 % b == x.limb2 as nat) by {
            lemma_fundamental_div_mod_converse(
                v2 as int,
                b as int,
                x.limb3 as int,
                x.limb2 as int,
            );
        }
        lemma_be_enc_split(v, 24, 8);
        lemma_be_enc_split(v1, 16, 8);
        lemma_be_enc_split(v2, 8, 8);
        // Each 8-byte field encodes the corresponding limb.
        lemma_be_enc_mod(v, 8);
        lemma_be_enc_mod(x.limb0 as nat, 8);
        lemma_small_mod(x.limb0 as nat, pow256(8));
        lemma_be_enc_mod(v1, 8);
        lemma_be_enc_mod(x.limb1 as nat, 8);
        lemma_small_mod(x.limb1 as nat, pow256(8));
        lemma_be_enc_mod(v2, 8);
        lemma_be_enc_mod(x.limb2 as nat, 8);
        lemma_small_mod(x.limb2 as nat, pow256(8));
        lemma_be_enc_len(v, 32);
        assert(out@ =~= be_enc(v, 32));
    }
    out
}

/// The value of the 32-byte word at byte position `pos`.
pub open spec fn word_at(s: Seq<u8>, pos: int) -> nat {
    word_val(s.subrange(pos, pos + 32))
}

/// Parse grants `j .. n` of the outer donation array. The encoding is
/// canonical: the offset word of grant `j` (at `96 + 32j`, relative to the
/// start of the outer array's element area at 96) must point exactly at
/// `tail`, where the grant's length word and its donation words stand, and
/// the grants' tails are densely packed in order, ending at the buffer's end.
pub open spec fn grants_from(s: Seq<u8>, j: nat, n: nat, tail: int) -> Option<Seq<Seq<nat>>>
    decreases n - j,
{
    if j >= n {
        if tail == s.len() {
            Some(Seq::empty())
        } else {
            None
        }
    } else if 128 + 32 * j <= s.len() && tail + 32 <= s.len() && word_at(s, 96 + 32 * (j as int))
        == tail - 96 {
        let m = word_at(s, tail);
        if tail + 32 + 32 * m <= s.len() {
            let vals = Seq::new(m, |k: int| word_at(s, tail + 32 + 32 * k));
            match grants_from(s, (j + 1) as nat, n, tail + 32 + 32 * m) {
                Some(rest) => Some(seq![vals] + rest),
                None => None,
            }
        } else {
            None
        }
    } else {
        None
    }
}

/// Parse a whole buffer as the canonical ABI encoding of the tuple
/// `(uint256[][], uint256)`: two head words (the offset 64 of the dynamic
/// part, and the matching amount), then the outer array.
pub open spec fn spec_decode(s: Seq<u8>) -> Option<(Seq<Seq<nat>>, nat)> {
    if s.len() >= 96 && word_at(s, 0) == 64 {
        let n = word_at(s, 64);
        match grants_from(s, 0, n, 96 + 32 * (n as int)) {
            Some(gs) => Some((gs, word_at(s, 32))),
            None => None,
        }
    } else {
        None
    }
}

/// Parse a byte buffer as the canonical ABI encoding of the input tuple:
/// the donation matrix and the matching amount. Exactly the buffers in the
/// image of the canonical encoding parse; every other buffer is rejected.
pub fn decode_input(buf: &Vec<u8>) -> (r: Result<(Vec<Vec<U256>>, U256), Error>)
    ensures
        match r {
            Ok(p) => spec_decode(buf@) == Some((p.0.deep_view(), p.1@)),
            Err(e) => spec_decode(buf@) is None && e == Error::DecodeError,
        },
{
    let len = buf.len();
    if len < 96 {
        return Err(Error::DecodeError);
    }
    let w0 = read_word(buf, 0);
    if !w0.fits_u64() || w0.as_u64() != 64 {
        return Err(Error::DecodeError);
    }
    let matching = read_word(buf, 32);
    let nw = read_word(buf, 64);
    let ghost s = buf@;
    let ghost n = word_at(s, 64int);
    if !nw.fits_u64() {
        proof {
            assert(grants_from(s, 0, n, 96 + 32 * (n as int)) is None);
        }
        return Err(Error::DecodeError);
    }
    let n64 = nw.as_u64();
    let ghost t0: int = 96 + 32 * (n as int);
    let mut donations: Vec<Vec<U256>> = Vec::new();
    let mut j: u64 = 0;
    let mut tail: u128 = 96 + 32 * (n64 as u128);
    loop
        invariant
            len == buf.len(),
            96 <= len,
            s == buf@,
            n == n64 as nat,
            n == word_at(s, 64),
            word_at(s, 0) == 64,
            matching@ == word_at(s, 32),
            t0 == 96 + 32 * (n as int),
            j <= n64,
            donations.len() == j,
            96 <= tail,
            tail <= 0x100000000000000000000,
            match grants_from(s, j as nat, n, tail as int) {
                Some(rest) => grants_from(s, 0, n, t0) == Some(donations.deep_view() + rest),
                None => grants_from(s, 0, n, t0) is None,
            },
        decreases n64 - j,
    {
        if j == n64 {
            if tail == len as u128 {
                proof {
                    assert(grants_from(s, j as nat, n, tail as int) == Some(
                        Seq::<Seq<nat>>::empty(),
                    ));
                    assert(donations.deep_view() + Seq::<Seq<nat>>::empty()
                        =~= donations.deep_view());
                }
                assert(grants_from(s, 0, n, t0) == Some(donations.deep_view()));
                assert(spec_decode(s) == Some((donations.deep_view(), matching@)));
                return Ok((donations, matching));
            } else {
                proof {
                    assert(grants_from(s, j as nat, n, tail as int) is None);
                }
                return Err(Error::DecodeError);
            }
        }
        let off_pos: u128 = 96 + 32 * (j as u128);
        if off_pos + 32 > len as u128 {
            proof {
                assert(grants_from(s, j as nat, n, tail as int) is None);
            }
            return Err(Error::DecodeError);
        }
        if tail + 32 > len as u128 {
            proof {
                assert(grants_from(s, j as nat, n, tail as int) is None);
            }
            return Err(Error::DecodeError);
        }
        let off = read_word(buf, off_pos as usize);
        proof {
            assert(off@ == word_at(s, 96 + 32 * (j as int)));
        }
        if !off.fits_u64() || (off.as_u64() as u128) != tail - 96 {
            proof {
                assert(word_at(s, 96 + 32 * (j as int)) != tail - 96);
                assert(grants_from(s, j as nat, n, tail as int) is None);
            }
            return Err(Error::DecodeError);
        }
        let mcountw = read_word(buf, tail as usize);
        if !mcountw.fits_u64() {
            proof {
                assert(32 * word_at(s, tail as int) > len);
            }
            return Err(Error::DecodeError);
        }
        let m64 = mcountw.as_u64();
        let need: u128 = tail + 32 + 32 * (m64 as u128);
        if need > len as u128 {
            proof {
                assert(grants_from(s, j as nat, n, tail as int) is None);
            }
            return Err(Error::DecodeError);
        }
        let base: u128 = tail + 32;
        let mut vals: Vec<U256> = Vec::new();
        let mut k: u64 = 0;
        while k < m64
            invariant
                len == buf.len(),
                s == buf@,
                base == tail + 32,
                base + 32 * (m64 as int) <= len,
                k <= m64,
                vals.len() == k,
                forall|i: int|
                    0 <= i < k ==> #[trigger] vals@[i]@ == word_at(s, base as int + 32 * i),
            decreases m64 - k,
        {
            let w = read_word(buf, (base + 32 * (k as u128)) as usize);
            vals.push(w);
            k = k + 1;
        }
        let ghost olddeep = donations.deep_view();
        let ghost oldtail = tail as int;
        let ghost valsview = Seq::new(
            word_at(s, oldtail),
            |i: int| word_at(s, oldtail + 32 + 32 * i),
        );
        proof {
            assert(vals.deep_view() =~= valsview);
        }
        donations.push(vals);
        j = j + 1;
        tail = need;
        proof {
            assert(donations.deep_view() =~= olddeep.push(valsview));
            match grants_from(s, j as nat, n, tail as int) {
                Some(rest) => {
                    assert(grants_from(s, (j - 1) as nat, n, oldtail) == Some(
                        seq![valsview] + rest,
                    ));
                    assert(olddeep + (seq![valsview] + rest) =~= donations.deep_view() + rest);
                },
                None => {
                    assert(grants_from(s, (j - 1) as nat, n, oldtail) is None);
                },
            }
        }
    }
}

/// Parse a 32-byte buffer as one big-endian ABI `uint256` word.
pub fn decode_uint256(buf: &Vec<u8>) -> (r: Result<U256, Error>)
    ensures
        match r {
            Ok(x) => buf@.len() == 32 && x@ == word_val(buf@),
            Err(e) => buf@.len() != 32 && e == Error::DecodeError,
        },
{
    if buf.len() != 32 {
        return Err(Error::DecodeError);
    }
    let w = read_word(buf, 0);
    proof {
        assert(buf@.subrange(0, 32) =~= buf@);
    }
    Ok(w)
}

} // verus!
