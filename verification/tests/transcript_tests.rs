use ark_ff::{BigInt, PrimeField};
use gkr::field::Fq;
use gkr::transcript::{ChallengeSource, Transcript};
use sha2::{Digest, Sha512};

fn to_ark(x: &Fq) -> ark_bls12_381::Fq {
    ark_bls12_381::Fq::from_bigint(BigInt::new(x.to_limbs())).unwrap()
}

#[test]
fn challenge_is_the_reduced_digest_of_what_was_absorbed() {
    let mut transcript = Transcript::new(0x0102);
    transcript.absorb_count(3);
    transcript.absorb_element(&Fq::from_u64(0xabcd));
    let mut bytes = vec![2u8, 1, 0, 0, 0, 0, 0, 0, 3, 0, 0, 0, 0, 0, 0, 0, 0xcd, 0xab];
    bytes.extend(std::iter::repeat(0u8).take(46));
    let digest = Sha512::digest(&bytes);
    let first = transcript.squeeze();
    assert_eq!(to_ark(&first), ark_bls12_381::Fq::from_le_bytes_mod_order(&digest));

    // the digest was absorbed: the next challenge hashes it too
    bytes.extend_from_slice(&digest);
    let second = transcript.squeeze();
    assert_eq!(
        to_ark(&second),
        ark_bls12_381::Fq::from_le_bytes_mod_order(&Sha512::digest(&bytes))
    );
    assert!(first != second);
}

#[test]
fn lists_are_absorbed_with_their_length() {
    let mut a = Transcript::new(1);
    a.absorb_elements(&vec![Fq::from_u64(5), Fq::from_u64(6)]);
    let mut b = Transcript::new(1);
    b.absorb_count(2);
    b.absorb_element(&Fq::from_u64(5));
    b.absorb_element(&Fq::from_u64(6));
    assert!(a.squeeze() == b.squeeze());
    let mut c = Transcript::new(1);
    c.absorb_elements(&vec![Fq::from_u64(5)]);
    c.absorb_elements(&vec![Fq::from_u64(6)]);
    assert!(c.squeeze() != b.squeeze());
}

#[test]
fn hashed_source_repeats_and_random_source_does_not() {
    let message = vec![Fq::from_u64(1), Fq::from_u64(2)];
    let mut one = ChallengeSource::hashed(Transcript::new(9));
    let mut two = ChallengeSource::hashed(Transcript::new(9));
    assert!(one.next(&message) == two.next(&message));
    let mut other = ChallengeSource::hashed(Transcript::new(10));
    assert!(one.next(&message) != other.next(&message));
    let mut random = ChallengeSource::random();
    assert!(random.next(&message) != random.next(&message));
}
