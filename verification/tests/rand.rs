use midencrypto::felt::Felt;
use midencrypto::rand::rpo::RpoRandomCoin;
use midencrypto::rescue::digest::RpoDigest;

#[test]
fn feltrng_felt() {
    let mut rpocoin = RpoRandomCoin::new([Felt::zero(); 4]);
    let output = rpocoin.draw_element();
    let mut rpocoin = RpoRandomCoin::new([Felt::zero(); 4]);
    let expected = rpocoin.draw_basefield();
    assert_eq!(output, expected);
}

#[test]
fn feltrng_word() {
    let mut rpocoin = RpoRandomCoin::new([Felt::zero(); 4]);
    let output = rpocoin.draw_word();
    let mut rpocoin = RpoRandomCoin::new([Felt::zero(); 4]);
    let mut expected = [Felt::zero(); 4];
    for o in &mut expected {
        *o = rpocoin.draw_basefield();
    }
    assert_eq!(output, expected);
}

#[test]
fn feltrng_serialization() {
    let coin1 = RpoRandomCoin::from_parts([Felt::one(); 12], 5);
    let bytes = coin1.to_bytes();
    let coin2 = RpoRandomCoin::read_from_bytes(&bytes).unwrap();
    assert_eq!(coin1, coin2);
}

#[test]
fn coin_rejects_position_outside_rate() {
    let coin = RpoRandomCoin::from_parts([Felt::one(); 12], 5);
    let mut bytes = coin.to_bytes();
    assert_eq!(bytes.len(), 97);
    bytes[96] = 12;
    assert!(RpoRandomCoin::read_from_bytes(&bytes).is_err());
    bytes[96] = 3;
    assert!(RpoRandomCoin::read_from_bytes(&bytes).is_err());
    assert!(RpoRandomCoin::read_from_bytes(&bytes[..50]).is_err());
}

#[test]
fn coin_draws_rate_then_permutes() {
    let mut coin = RpoRandomCoin::from_parts([Felt::new(9); 12], 11);
    assert_eq!(coin.draw_basefield(), Felt::new(9));
    let (_, current) = coin.into_parts();
    assert_eq!(current, 12);
    let next = coin.draw_basefield();
    let (state, current) = coin.into_parts();
    assert_eq!(current, 5);
    assert_eq!(next, state[4]);
}

#[test]
fn fill_bytes_uses_low_halves_of_draws() {
    let seed = [Felt::new(1), Felt::new(2), Felt::new(3), Felt::new(4)];
    let mut a = RpoRandomCoin::new(seed);
    let mut b = RpoRandomCoin::new(seed);
    let mut dest = vec![0u8; 11];
    a.fill_bytes(&mut dest);
    let mut expected = Vec::new();
    for _ in 0..3 {
        let v = b.draw_basefield().as_int() as u32;
        expected.extend_from_slice(&v.to_le_bytes());
    }
    expected.truncate(11);
    assert_eq!(dest, expected);
    assert_eq!(a, b);
}

#[test]
fn reseed_restarts_at_rate() {
    let mut coin = RpoRandomCoin::new([Felt::zero(); 4]);
    coin.draw_basefield();
    coin.reseed(RpoDigest::new([Felt::one(); 4]));
    let (_, current) = coin.into_parts();
    assert_eq!(current, 4);
}
