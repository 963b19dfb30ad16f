use quadratic::run;
use quadratic::Error;
use quadratic::qf::compute;
use quadratic::u256::U256;

fn w32(v: u64) -> Vec<u8> {
    let mut b = vec![0u8; 32];
    b[24..32].copy_from_slice(&v.to_be_bytes());
    b
}

fn encode_input(donations: &[Vec<u64>], matching: u64) -> Vec<u8> {
    let n = donations.len();
    let mut out = w32(64);
    out.extend(w32(matching));
    out.extend(w32(n as u64));
    let mut offset = 32 * n;
    for g in donations {
        out.extend(w32(offset as u64));
        offset += 32 + 32 * g.len();
    }
    for g in donations {
        out.extend(w32(g.len() as u64));
        for d in g {
            out.extend(w32(*d));
        }
    }
    out
}

fn keccak(b: &[u8]) -> Vec<u8> {
    let digest = <sha3::Keccak256 as sha3::Digest>::digest(b);
    digest.as_slice().to_vec()
}

fn leaf(i: u64, amount: u64) -> Vec<u8> {
    let mut l = i.to_be_bytes().to_vec();
    l.extend(w32(amount));
    l
}

fn grants(donations: &[Vec<u64>]) -> Vec<Vec<U256>> {
    donations.iter().map(|g| g.iter().map(|d| U256::from_u64(*d)).collect()).collect()
}

#[test]
fn single_grant_identity_payout() {
    let d = grants(&[vec![5]]);
    let rec = compute(&d, &U256::from_u64(7)).unwrap();
    assert_eq!(rec, vec![U256::from_u64(12)]);
}

#[test]
fn single_grant_root_is_leaf_hash() {
    let input = encode_input(&[vec![5]], 7);
    let journal = run(&input).unwrap();
    assert_eq!(journal, keccak(&leaf(0, 12)));
}

#[test]
fn two_grant_proportionality() {
    // x0 = (10^2)^2 = 10000, x1 = (20^2)^2 = 160000, cumulative = 170000.
    // shares: 10000*300/170000 = 17, 160000*300/170000 = 282.
    let d = grants(&[vec![10], vec![20]]);
    let rec = compute(&d, &U256::from_u64(300)).unwrap();
    assert_eq!(rec, vec![U256::from_u64(27), U256::from_u64(302)]);
    // The floor-divided shares together never exceed the matching amount.
    assert!(27 + 302 - 10 - 20 <= 300);
}

#[test]
fn two_grant_root_cross_check() {
    let input = encode_input(&[vec![10], vec![20]], 300);
    let journal = run(&input).unwrap();
    let h0 = keccak(&leaf(0, 27));
    let h1 = keccak(&leaf(1, 302));
    let mut cat = h0.clone();
    cat.extend(h1);
    assert_eq!(journal, keccak(&cat));
}

#[test]
fn three_grant_odd_node_promoted() {
    // Three leaves: the lone third node is promoted unchanged one level up.
    let input = encode_input(&[vec![1], vec![1], vec![1]], 0);
    let journal = run(&input).unwrap();
    let h0 = keccak(&leaf(0, 1));
    let h1 = keccak(&leaf(1, 1));
    let h2 = keccak(&leaf(2, 1));
    let mut cat01 = h0.clone();
    cat01.extend(h1);
    let k01 = keccak(&cat01);
    let mut top = k01.clone();
    top.extend(h2);
    assert_eq!(journal, keccak(&top));
}

#[test]
fn identical_input_identical_journal() {
    let input = encode_input(&[vec![3, 4], vec![9]], 1000);
    let first = run(&input).unwrap();
    let second = run(&input).unwrap();
    assert_eq!(first, second);
}

#[test]
fn donation_permutation_keeps_root() {
    let a = encode_input(&[vec![1, 2, 3], vec![4]], 500);
    let b = encode_input(&[vec![3, 1, 2], vec![4]], 500);
    assert_eq!(run(&a).unwrap(), run(&b).unwrap());
}

#[test]
fn grant_permutation_changes_root() {
    let a = encode_input(&[vec![10], vec![20]], 300);
    let b = encode_input(&[vec![20], vec![10]], 300);
    assert_ne!(run(&a).unwrap(), run(&b).unwrap());
}

#[test]
fn zero_cumulative_aborts() {
    let input = encode_input(&[vec![], vec![]], 300);
    assert_eq!(run(&input), Err(Error::ArithmeticDegenerate));
}

#[test]
fn zero_donation_aborts() {
    let input = encode_input(&[vec![0]], 300);
    assert_eq!(run(&input), Err(Error::ArithmeticDegenerate));
}

#[test]
fn empty_donation_set_aborts() {
    let input = encode_input(&[], 300);
    assert_eq!(run(&input), Err(Error::ArithmeticDegenerate));
}

#[test]
fn truncated_input_rejected() {
    let mut input = encode_input(&[vec![10], vec![20]], 300);
    input.pop();
    assert_eq!(run(&input), Err(Error::DecodeError));
}

#[test]
fn short_buffer_rejected() {
    assert_eq!(run(&Vec::new()), Err(Error::DecodeError));
    assert_eq!(run(&vec![0u8; 95]), Err(Error::DecodeError));
}

#[test]
fn bad_head_offset_rejected() {
    let mut input = encode_input(&[vec![10]], 300);
    input[31] = 65;
    assert_eq!(run(&input), Err(Error::DecodeError));
}

#[test]
fn bad_grant_offset_rejected() {
    let mut input = encode_input(&[vec![10], vec![20]], 300);
    // Corrupt the first grant's offset word (bytes 96..128).
    input[127] ^= 1;
    assert_eq!(run(&input), Err(Error::DecodeError));
}

#[test]
fn trailing_bytes_rejected() {
    let mut input = encode_input(&[vec![10]], 300);
    input.extend(vec![0u8; 32]);
    assert_eq!(run(&input), Err(Error::DecodeError));
}

#[test]
fn compute_on_decoded_values_matches_journal() {
    // The journal is the 32-byte big-endian encoding of the root integer.
    let input = encode_input(&[vec![7, 8]], 90);
    let journal = run(&input).unwrap();
    assert_eq!(journal.len(), 32);
    let root = quadratic::quadratic(grants(&[vec![7, 8]]), U256::from_u64(90)).unwrap();
    let encoded = quadratic::codec::encode_uint256(&root);
    assert_eq!(journal, encoded);
}

#[test]
fn large_donation_crosses_limbs() {
    // d = 2^63: x = ((2^63)^2)^2 = 2^252, share = 2^252 * 1 / 2^252 = 1,
    // so the grant receives 2^63 + 1.
    let d = grants(&[vec![0x8000000000000000]]);
    let rec = compute(&d, &U256::from_u64(1)).unwrap();
    assert_eq!(rec, vec![U256::from_u64(0x8000000000000001)]);
}

#[test]
fn oversized_outer_length_rejected() {
    let mut input = encode_input(&[vec![10]], 300);
    // Set a high byte of the outer array's length word (bytes 64..96).
    input[64] = 1;
    assert_eq!(run(&input), Err(Error::DecodeError));
}

#[test]
fn oversized_grant_offset_rejected() {
    let mut input = encode_input(&[vec![10]], 300);
    // Set a high byte of the grant's offset word (bytes 96..128).
    input[96] = 1;
    assert_eq!(run(&input), Err(Error::DecodeError));
}

#[test]
fn oversized_inner_length_rejected() {
    let mut input = encode_input(&[vec![10]], 300);
    // Set a high byte of the inner array's length word (bytes 128..160).
    input[128] = 1;
    assert_eq!(run(&input), Err(Error::DecodeError));
}

#[test]
fn inner_length_beyond_buffer_rejected() {
    let mut input = encode_input(&[vec![10]], 300);
    // Claim two donations where the buffer holds one.
    input[159] = 2;
    assert_eq!(run(&input), Err(Error::DecodeError));
}

#[test]
fn missing_grant_tail_rejected() {
    // An outer length of two with only one grant's offset and tail.
    let mut input = encode_input(&[vec![10]], 300);
    input[95] = 2;
    assert_eq!(run(&input), Err(Error::DecodeError));
}
