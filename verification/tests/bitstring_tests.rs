use rustea::bitstring::U8BitString;

#[test]
fn create_bitstring_of_zeros() {
    let zeros = U8BitString::zeros(12);

    zeros.iter().into_iter().for_each(|bit| assert_eq!(bit, false));
}

#[test]
fn create_bitstring_of_ones() {
    let zeros = U8BitString::ones(12);

    zeros.iter().into_iter().for_each(|bit| assert_eq!(bit, true));
}

#[test]
fn set_bit() {
    let mut zeros = U8BitString::zeros(15);
    zeros.set(2, true);

    assert_eq!(zeros.get(2), true);

    zeros.set(2, false);

    assert_eq!(zeros.get(2), false);
}

#[test]
fn flip_bit() {
    let mut zeros = U8BitString::zeros(8);
    zeros.flip(4);

    assert_eq!(zeros.get(4), true);

    zeros.flip(4);

    assert_eq!(zeros.get(4), false);
}

#[test]
fn random_bitstring_has_requested_length() {
    let mut rng = rand::rng();
    let bits = U8BitString::random(&mut rng, 21);
    assert_eq!(bits.len(), 21);
    assert_eq!(bits.iter().len(), 21);
}
